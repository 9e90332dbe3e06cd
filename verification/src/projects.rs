//! Projects: categories, headers and page types.
use vstd::prelude::*;

use crate::prelude::SourcePath;
use crate::text::joined_text;

use crate::csv::same_chars;
use crate::primitives::{SidebarType, SourceType};
use crate::sorting::{
    lemma_lex_asym, lemma_lex_total, lemma_lex_trans, lex_less, listed_in_order, stable_arrangement,
    stable_sort, ListOrder,
};
use crate::text::lex_lt;
use crate::text::{
    chars_of, find_char_index, lemma_find_char, push_str, split_once_char, string_from_chars,
    sub_chars,
};

verus! {

/// What `str::to_lowercase` gives for `s`.
pub uninterp spec fn lowercase_text(s: Seq<char>) -> Seq<char>;

/// `s` in lower case (`str::to_lowercase`, Unicode rules).
#[verifier::external_body]
fn to_lowercase(s: &str) -> (r: String)
    ensures
        r@ == lowercase_text(s@),
{
    s.to_lowercase()
}

/// Whether `char::is_numeric` holds of `c`.
pub uninterp spec fn numeric_char(c: char) -> bool;

/// `char::is_numeric` (Unicode numeric categories).
#[verifier::external_body]
fn is_numeric(c: char) -> (b: bool)
    ensures
        b == numeric_char(c),
{
    c.is_numeric()
}

/// `s` with every `a` replaced by `b`.
pub open spec fn replace_char(s: Seq<char>, a: char, b: char) -> Seq<char> {
    s.map_values(|c: char| if c == a { b } else { c })
}

/// A category's display name: what follows its first space, or all of it.
pub open spec fn category_name(raw: Seq<char>) -> Seq<char> {
    match split_once_char(raw, ' ') {
        Some((_, rest)) => rest,
        None => raw,
    }
}

/// The longest prefix of `s` whose chars are numeric.
pub open spec fn numeric_prefix(s: Seq<char>) -> Seq<char>
    decreases s.len(),
{
    if s.len() > 0 && numeric_char(s[0]) {
        seq![s[0]] + numeric_prefix(s.drop_first())
    } else {
        Seq::<char>::empty()
    }
}

/// A project category with a name and a generated id.
#[derive(Debug, Clone)]
pub struct ProjectCategory {
    /// The raw name, e.g. `1. rust crates`; categories sort by it
    pub raw_name: String,
    /// The display name, e.g. `rust crates`
    pub name: String,
    /// The id used in URLs, e.g. `rust-crates`
    pub id: String,
}

impl ProjectCategory {
    /// A category from its raw name: the display name drops everything up
    /// to the first space, the id is the name in lower case with spaces
    /// turned into `-`.
    pub fn new(raw_name: String) -> (r: ProjectCategory)
        ensures
            r.raw_name@ == raw_name@,
            r.name@ == category_name(raw_name@),
            r.id@ == replace_char(lowercase_text(category_name(raw_name@)), ' ', '-'),
    {
        let raw = chars_of(raw_name.as_str());
        proof {
            lemma_find_char(raw@, ' ');
        }
        let name_chars = match find_char_index(&raw, ' ') {
            Some(i) => sub_chars(&raw, i + 1, raw.len()),
            None => raw.clone(),
        };
        let name = string_from_chars(&name_chars);
        let lower = chars_of(to_lowercase(name.as_str()).as_str());
        let mut id: Vec<char> = Vec::new();
        let mut k: usize = 0;
        while k < lower.len()
            invariant
                k <= lower.len(),
                id@ == replace_char(lower@.subrange(0, k as int), ' ', '-'),
            decreases lower.len() - k,
        {
            id.push(if lower[k] == ' ' { '-' } else { lower[k] });
            k = k + 1;
            assert(id@ =~= replace_char(lower@.subrange(0, k as int), ' ', '-'));
        }
        assert(lower@.subrange(0, lower.len() as int) =~= lower@);
        ProjectCategory { raw_name, name, id: string_from_chars(&id) }
    }
}

/// A project's listed title: the numeric start of its folder name (its
/// start year), ` - `, then its own title.
pub open spec fn project_title(folder: Seq<char>, title: Seq<char>) -> Seq<char> {
    numeric_prefix(folder) + " - "@ + title
}

/// The title a project is listed under, e.g. `2024 - some project`.
pub fn project_display_title(folder: &str, title: &str) -> (r: String)
    ensures
        r@ == project_title(folder@, title@),
{
    let f = chars_of(folder);
    let mut n: usize = 0;
    assert(f@.subrange(0, f.len() as int) =~= f@);
    assert(f@.subrange(0, 0) + numeric_prefix(f@) =~= numeric_prefix(f@));
    while n < f.len() && is_numeric(f[n])
        invariant
            n <= f.len(),
            numeric_prefix(f@) == f@.subrange(0, n as int) + numeric_prefix(
                f@.subrange(n as int, f.len() as int),
            ),
        decreases f.len() - n,
    {
        assert(f@.subrange(n as int, f.len() as int).drop_first() =~= f@.subrange(
            n + 1,
            f.len() as int,
        ));
        assert(f@.subrange(0, n + 1) =~= f@.subrange(0, n as int) + seq![f@[n as int]]);
        n = n + 1;
    }
    assert(numeric_prefix(f@.subrange(n as int, f.len() as int)) == Seq::<char>::empty());
    let mut out = sub_chars(&f, 0, n);
    push_str(&mut out, " - ");
    push_str(&mut out, title);
    assert(out@ =~= project_title(folder@, title@));
    string_from_chars(&out)
}

/// The URL of a project page, `/projects/{name}/`.
pub fn project_url(name: &str) -> (r: String)
    ensures
        r@ == "/projects/"@ + name@ + "/"@,
{
    let mut out: Vec<char> = Vec::new();
    push_str(&mut out, "/projects/");
    push_str(&mut out, name);
    push_str(&mut out, "/");
    string_from_chars(&out)
}

/// A JSON file describing a project, used at the top of every project page.
#[derive(Debug, Clone)]
pub struct ProjectHeader {
    /// The title of the project
    pub title: String,
    /// The type of collaboration, e.g. "Group", "Individual"
    pub collab_type: String,
    /// The status of the project, e.g. "Completed", "Hiatus"
    pub status: String,
    /// The description of the project
    pub desc: Option<String>,
    /// The date of the project, general, year/month
    pub date: Option<String>,
    /// The location of the project
    pub location: Option<String>,
    /// The repositories associated with the project, if any
    pub repos: Vec<String>,
}

/// An optional text read from JSON, with an empty one read as none.
pub fn empty_as_none(opt: Option<String>) -> (r: Option<String>)
    ensures
        match opt {
            Some(s) => if s@.len() == 0 {
                r is None
            } else {
                r == Some(s)
            },
            None => r is None,
        },
{
    match opt {
        Some(s) => if s.as_str().is_empty() {
            None
        } else {
            Some(s)
        },
        None => None,
    }
}

/// A page displaying a single project.
#[derive(Debug, Clone)]
pub struct ProjectTemplate {
    /// The name of the project
    pub name: String,
    /// The URL of the project
    pub url: String,
    /// The content of the project
    pub content: String,
    /// The header of the project
    pub header: ProjectHeader,
    /// The sidebar of the project page
    pub sidebar: SidebarType,
}

/// The homepage which shows all projects.
#[derive(Debug, Clone)]
pub struct ProjectsHomepage {
    pub title: String,
    pub sidebar: SidebarType,
}

impl SourcePath<ProjectsHomepage> for ProjectsHomepage {
    /// `{templates_dir}/projects/projects-homepage.html`
    fn src_path(templates_dir: &str) -> (r: String)
        ensures
            r@ == templates_dir@ + "/projects/projects-homepage.html"@,
    {
        joined_text(templates_dir, "/projects/projects-homepage.html")
    }
}

// --------------------------------------------------
// building the project listing
// --------------------------------------------------
/// Which source a project folder is read from: its `.html` page or its
/// `.md` file; `None` (the project is skipped) when it has neither. A
/// folder with both is refused before this is asked.
pub fn project_source(html_exists: bool, md_exists: bool) -> (r: Option<SourceType>)
    requires
        !(html_exists && md_exists),
    ensures
        r == (if html_exists {
            Some(SourceType::Html)
        } else if md_exists {
            Some(SourceType::Markdown)
        } else {
            None::<SourceType>
        }),
{
    if html_exists {
        Some(SourceType::Html)
    } else if md_exists {
        Some(SourceType::Markdown)
    } else {
        None
    }
}

impl ProjectTemplate {
    /// The page of project folder `name`: its header with the title
    /// prefixed by the folder's start year, its URL `/projects/{name}/`,
    /// the projects sidebar.
    pub fn new(name: &str, header: ProjectHeader, content: String) -> (r: ProjectTemplate)
        ensures
            r.name@ == name@,
            r.url@ == "/projects/"@ + name@ + "/"@,
            r.content == content,
            r.header.title@ == project_title(name@, header.title@),
            r.header.collab_type == header.collab_type,
            r.header.status == header.status,
            r.header.desc == header.desc,
            r.header.date == header.date,
            r.header.location == header.location,
            r.header.repos == header.repos,
            r.sidebar == SidebarType::Projects,
    {
        let title = project_display_title(name, header.title.as_str());
        let header = ProjectHeader { title, ..header };
        ProjectTemplate {
            name: string_from_chars(&chars_of(name)),
            url: project_url(name),
            content,
            header,
            sidebar: SidebarType::Projects,
        }
    }
}

/// The category names of the items, each once, in the order they first
/// occur.
pub open spec fn category_names(items: Seq<(String, String, ProjectTemplate)>) -> Seq<Seq<char>>
    decreases items.len(),
{
    if items.len() == 0 {
        Seq::empty()
    } else {
        let d = category_names(items.drop_last());
        if d.contains(items.last().0@) {
            d
        } else {
            d.push(items.last().0@)
        }
    }
}

/// The `(source, page)` of the items in category `c`, in order.
pub open spec fn in_category(items: Seq<(String, String, ProjectTemplate)>, c: Seq<char>) -> Seq<
    (String, ProjectTemplate),
>
    decreases items.len(),
{
    if items.len() == 0 {
        Seq::empty()
    } else {
        let r = in_category(items.drop_last(), c);
        if items.last().0@ == c {
            r.push((items.last().1, items.last().2))
        } else {
            r
        }
    }
}

/// A project category entry: the category and its `(source, page)` list.
pub type CategoryProjects = (ProjectCategory, Vec<(String, ProjectTemplate)>);

/// Whether `c` is the category `ProjectCategory::new` makes of `raw`.
pub open spec fn category_of(c: ProjectCategory, raw: Seq<char>) -> bool {
    &&& c.raw_name@ == raw
    &&& c.name@ == category_name(raw)
    &&& c.id@ == replace_char(lowercase_text(category_name(raw)), ' ', '-')
}

/// Groups `(category, source, page)` items by category: one entry per
/// category, in the order the categories first occur, each with its
/// pages in order.
pub fn group_by_category(items: Vec<(String, String, ProjectTemplate)>) -> (r: Vec<CategoryProjects>)
    ensures
        r@.len() == category_names(items@).len(),
        forall|k: int|
            0 <= k < r@.len() ==> category_of(#[trigger] r@[k].0, category_names(items@)[k])
                && r@[k].1@ == in_category(items@, category_names(items@)[k]),
{
    let ghost orig = items@;
    let n = items.len();
    let mut rest = items;
    let mut rev: Vec<(String, String, ProjectTemplate)> = Vec::new();
    while rest.len() > 0
        invariant
            rest@.len() + rev@.len() == orig.len(),
            orig.len() == n,
            forall|k: int| 0 <= k < rest@.len() ==> #[trigger] rest@[k] == orig[k],
            forall|k: int| 0 <= k < rev@.len() ==> #[trigger] rev@[k] == orig[orig.len() - 1 - k],
        decreases rest.len(),
    {
        let x = rest.pop().unwrap();
        rev.push(x);
    }
    let mut out: Vec<CategoryProjects> = Vec::new();
    let mut i: usize = 0;
    while rev.len() > 0
        invariant
            i + rev@.len() == orig.len(),
            orig.len() == n,
            forall|k: int| 0 <= k < rev@.len() ==> #[trigger] rev@[k] == orig[orig.len() - 1 - k],
            out@.len() == category_names(orig.take(i as int)).len(),
            forall|k: int|
                0 <= k < out@.len() ==> category_of(#[trigger] out@[k].0, category_names(orig.take(i as int))[k])
                    && out@[k].1@ == in_category(orig.take(i as int), category_names(orig.take(i as int))[k]),
        decreases rev.len(),
    {
        let (cat, src, page) = rev.pop().unwrap();
        let ghost x = orig[i as int];
        assert((cat, src, page) == x);
        let ghost pre = orig.take(i + 1);
        let ghost old_take = orig.take(i as int);
        assert(pre.drop_last() =~= old_take);
        assert(pre.last() == x);
        let ghost names0 = category_names(old_take);
        let c = chars_of(cat.as_str());
        let mut found: Option<usize> = None;
        let mut k: usize = 0;
        while k < out.len()
            invariant
                k <= out@.len(),
                c@ == cat@,
                found matches Some(f) ==> f < out@.len() && out@[f as int].0.raw_name@ == cat@,
                found is None ==> forall|q: int| 0 <= q < k ==> out@[q].0.raw_name@ != cat@,
            decreases out.len() - k,
        {
            if found.is_none() && same_chars(&chars_of(out[k].0.raw_name.as_str()), &c) {
                found = Some(k);
            }
            k = k + 1;
        }
        let ghost before = out@;
        match found {
            Some(f) => {
                proof {
                    assert(names0[f as int] == cat@);
                    assert(names0.contains(cat@));
                }
                let (cg, mut group) = out.remove(f);
                group.push((src, page));
                out.insert(f, (cg, group));
                proof {
                    assert(category_names(pre) == names0);
                    assert forall|q: int| 0 <= q < out@.len() implies category_of(
                        #[trigger] out@[q].0,
                        category_names(pre)[q],
                    ) && out@[q].1@ == in_category(pre, category_names(pre)[q]) by {
                        if q != f {
                            assert(out@[q] == before[q]);
                            lemma_category_names_distinct(old_take);
                            if q < f {
                                assert(names0[q] != names0[f as int]);
                            } else {
                                assert(names0[f as int] != names0[q]);
                            }
                        }
                    }
                }
            },
            None => {
                proof {
                    if names0.contains(cat@) {
                        let q = choose|q: int| 0 <= q < names0.len() && names0[q] == cat@;
                        assert(before[q].0.raw_name@ == names0[q]);
                    }
                    lemma_in_category_absent(old_take, cat@);
                }
                let category = ProjectCategory::new(cat);
                let mut group: Vec<(String, ProjectTemplate)> = Vec::new();
                group.push((src, page));
                out.push((category, group));
                proof {
                    assert(category_names(pre) == names0.push(x.0@));
                    assert forall|q: int| 0 <= q < out@.len() implies category_of(
                        #[trigger] out@[q].0,
                        category_names(pre)[q],
                    ) && out@[q].1@ == in_category(pre, category_names(pre)[q]) by {
                        if q < before.len() {
                            assert(out@[q] == before[q]);
                            assert(names0[q] != cat@) by {
                                lemma_category_names_distinct(old_take);
                            }
                        } else {
                            assert(in_category(old_take, cat@) =~= Seq::<(String, ProjectTemplate)>::empty());
                            assert(group@ =~= seq![(x.1, x.2)]);
                        }
                    }
                }
            },
        }
        i = i + 1;
    }
    assert(orig.take(orig.len() as int) =~= orig);
    out
}

/// A category that never occurs has no pages.
proof fn lemma_in_category_absent(items: Seq<(String, String, ProjectTemplate)>, c: Seq<char>)
    requires
        !category_names(items).contains(c),
    ensures
        in_category(items, c) == Seq::<(String, ProjectTemplate)>::empty(),
    decreases items.len(),
{
    if items.len() > 0 {
        let d = category_names(items.drop_last());
        if !d.contains(items.last().0@) {
            assert(d.push(items.last().0@)[d.len() as int] == items.last().0@);
            if d.contains(c) {
                let q = choose|q: int| 0 <= q < d.len() && d[q] == c;
                assert(d.push(items.last().0@)[q] == c);
            }
        } else {
            assert(items.last().0@ != c);
        }
        lemma_in_category_absent(items.drop_last(), c);
    }
}

/// Category names occur once each.
proof fn lemma_category_names_distinct(items: Seq<(String, String, ProjectTemplate)>)
    ensures
        forall|a: int, b: int|
            0 <= a < b < category_names(items).len() ==> #[trigger] category_names(items)[a]
                != #[trigger] category_names(items)[b],
    decreases items.len(),
{
    if items.len() > 0 {
        lemma_category_names_distinct(items.drop_last());
        let d = category_names(items.drop_last());
        if !d.contains(items.last().0@) {
            assert forall|a: int, b: int|
                0 <= a < b < d.push(items.last().0@).len() implies #[trigger] d.push(
                items.last().0@,
            )[a] != #[trigger] d.push(items.last().0@)[b] by {
                if b == d.len() {
                    assert(d.push(items.last().0@)[a] == d[a]);
                } else {
                    assert(d.push(items.last().0@)[a] == d[a]);
                    assert(d.push(items.last().0@)[b] == d[b]);
                }
            }
        }
    }
}

/// Categories are listed by raw name, in alphabetical order.
impl ListOrder for (ProjectCategory, Vec<(String, ProjectTemplate)>) {
    open spec fn goes_before(&self, other: &Self) -> bool {
        lex_lt(self.0.raw_name@, other.0.raw_name@)
    }

    proof fn lemma_list_order(a: &Self, b: &Self, c: &Self) {
        lemma_lex_asym(a.0.raw_name@, b.0.raw_name@);
        lemma_lex_total(b.0.raw_name@, c.0.raw_name@);
        lemma_lex_asym(c.0.raw_name@, b.0.raw_name@);
        if lex_lt(a.0.raw_name@, c.0.raw_name@) && lex_lt(c.0.raw_name@, b.0.raw_name@) {
            lemma_lex_trans(a.0.raw_name@, c.0.raw_name@, b.0.raw_name@);
        }
    }

    fn precedes(&self, other: &Self) -> (r: bool) {
        lex_less(self.0.raw_name.as_str(), other.0.raw_name.as_str())
    }
}

/// Projects are listed by folder name, last first (which, for names that
/// start with their year, is newest first).
impl ListOrder for (String, ProjectTemplate) {
    open spec fn goes_before(&self, other: &Self) -> bool {
        lex_lt(other.1.name@, self.1.name@)
    }

    proof fn lemma_list_order(a: &Self, b: &Self, c: &Self) {
        lemma_lex_asym(a.1.name@, b.1.name@);
        lemma_lex_asym(b.1.name@, a.1.name@);
        lemma_lex_total(a.1.name@, b.1.name@);
        if lex_lt(a.1.name@, b.1.name@) && lex_lt(c.1.name@, a.1.name@) {
            lemma_lex_trans(c.1.name@, a.1.name@, b.1.name@);
        }
    }

    fn precedes(&self, other: &Self) -> (r: bool) {
        lex_less(other.1.name.as_str(), self.1.name.as_str())
    }
}

/// The categories in alphabetical order of their raw names.
pub fn sort_categories_by_name(pages: Vec<CategoryProjects>) -> (r: Vec<CategoryProjects>)
    ensures
        listed_in_order(r@),
        exists|idx: Seq<int>| #[trigger] stable_arrangement(r@, pages@, idx),
{
    stable_sort(pages)
}

/// Each category's projects by folder name, last first; the categories
/// stay as they are.
pub fn sort_category_projects(pages: Vec<CategoryProjects>) -> (r: Vec<CategoryProjects>)
    ensures
        r@.len() == pages@.len(),
        forall|k: int|
            0 <= k < r@.len() ==> (#[trigger] r@[k]).0 == pages@[k].0 && listed_in_order(r@[k].1@)
                && exists|idx: Seq<int>| #[trigger] stable_arrangement(r@[k].1@, pages@[k].1@, idx),
{
    let ghost orig = pages@;
    let n = pages.len();
    let mut rest = pages;
    let mut rev: Vec<CategoryProjects> = Vec::new();
    while rest.len() > 0
        invariant
            rest@.len() + rev@.len() == orig.len(),
            orig.len() == n,
            forall|k: int| 0 <= k < rest@.len() ==> #[trigger] rest@[k] == orig[k],
            forall|k: int| 0 <= k < rev@.len() ==> #[trigger] rev@[k] == orig[orig.len() - 1 - k],
        decreases rest.len(),
    {
        let x = rest.pop().unwrap();
        rev.push(x);
    }
    let mut out: Vec<CategoryProjects> = Vec::new();
    while rev.len() > 0
        invariant
            out@.len() + rev@.len() == orig.len(),
            orig.len() == n,
            forall|k: int| 0 <= k < rev@.len() ==> #[trigger] rev@[k] == orig[orig.len() - 1 - k],
            forall|k: int|
                0 <= k < out@.len() ==> (#[trigger] out@[k]).0 == orig[k].0 && listed_in_order(out@[k].1@)
                    && exists|idx: Seq<int>| #[trigger] stable_arrangement(out@[k].1@, orig[k].1@, idx),
        decreases rev.len(),
    {
        let (cat, group) = rev.pop().unwrap();
        let sorted = stable_sort(group);
        let ghost before = out@;
        out.push((cat, sorted));
        assert forall|k: int|
            0 <= k < out@.len() implies (#[trigger] out@[k]).0 == orig[k].0 && listed_in_order(out@[k].1@)
                && exists|idx: Seq<int>| #[trigger] stable_arrangement(out@[k].1@, orig[k].1@, idx) by {
            if k < before.len() {
                assert(out@[k] == before[k]);
            }
        }
    }
    out
}

} // verus!
