//! Notes: links to note files grouped by category and topic, and pages.
use vstd::prelude::*;

use crate::prelude::SourcePath;
use crate::text::joined_text;

use crate::markdown::{ends_with, occurs_at};
use crate::primitives::{Link, SidebarType};
use crate::sorting::{
    lemma_lex_asym, lemma_lex_total, lemma_lex_trans, lex_less, listed_in_order, stable_arrangement,
    stable_sort, ListOrder,
};
use crate::text::lex_lt;
use crate::text::{chars_of, push_str, string_from_chars};

verus! {

/// Notes grouped by category, then topic.
pub type Notes = Vec<(String, Vec<(String, Vec<Link>)>)>;

/// `{dir}/{category}/{topic}/{name}`
pub open spec fn note_path(dir: Seq<char>, category: Seq<char>, topic: Seq<char>, name: Seq<char>) -> Seq<char> {
    dir + "/"@ + category + "/"@ + topic + "/"@ + name
}

/// The link to a note file: its name, and its path under the notes directory.
pub fn note_link(dir: &str, category: &str, topic: &str, name: &str) -> (r: Link)
    ensures
        r.name@ == name@,
        r.url@ == note_path(dir@, category@, topic@, name@),
{
    let mut url: Vec<char> = Vec::new();
    push_str(&mut url, dir);
    push_str(&mut url, "/");
    push_str(&mut url, category);
    push_str(&mut url, "/");
    push_str(&mut url, topic);
    push_str(&mut url, "/");
    push_str(&mut url, name);
    assert(url@ =~= note_path(dir@, category@, topic@, name@));
    Link { name: string_from_chars(&chars_of(name)), url: string_from_chars(&url) }
}

/// Whether a note gets a page of its own: every note but a `.pdf`, which
/// is linked as it is.
pub fn note_has_page(url: &str) -> (b: bool)
    ensures
        b == !ends_with(url@, ".pdf"@),
{
    let u = chars_of(url);
    let pdf = chars_of(".pdf");
    if pdf.len() > u.len() {
        return true;
    }
    let found = occurs_at(&u, &pdf, u.len() - pdf.len());
    assert(u@.subrange(u.len() - pdf.len(), u.len() as int).subrange(0, pdf@.len() as int)
        =~= u@.subrange(u.len() - pdf.len(), u.len() as int));
    !found
}

/// The descending order of names: `a` before `b` when its name sorts after.
proof fn lemma_descending(a: Seq<char>, b: Seq<char>, c: Seq<char>)
    ensures
        lex_lt(b, a) ==> !lex_lt(a, b),
        (!lex_lt(b, a) && !lex_lt(c, b)) ==> !lex_lt(c, a),
{
    lemma_lex_asym(a, b);
    lemma_lex_asym(b, a);
    lemma_lex_total(a, b);
    if lex_lt(a, b) && lex_lt(c, a) {
        lemma_lex_trans(c, a, b);
    }
}

/// Notes are listed by name, last first.
impl ListOrder for Link {
    open spec fn goes_before(&self, other: &Self) -> bool {
        lex_lt(other.name@, self.name@)
    }

    proof fn lemma_list_order(a: &Self, b: &Self, c: &Self) {
        lemma_descending(a.name@, b.name@, c.name@);
    }

    fn precedes(&self, other: &Self) -> (r: bool) {
        lex_less(other.name.as_str(), self.name.as_str())
    }
}

/// Topics are listed by name, last first.
impl ListOrder for (String, Vec<Link>) {
    open spec fn goes_before(&self, other: &Self) -> bool {
        lex_lt(other.0@, self.0@)
    }

    proof fn lemma_list_order(a: &Self, b: &Self, c: &Self) {
        lemma_descending(a.0@, b.0@, c.0@);
    }

    fn precedes(&self, other: &Self) -> (r: bool) {
        lex_less(other.0.as_str(), self.0.as_str())
    }
}

/// Categories are listed by name, last first.
impl ListOrder for (String, Vec<(String, Vec<Link>)>) {
    open spec fn goes_before(&self, other: &Self) -> bool {
        lex_lt(other.0@, self.0@)
    }

    proof fn lemma_list_order(a: &Self, b: &Self, c: &Self) {
        lemma_descending(a.0@, b.0@, c.0@);
    }

    fn precedes(&self, other: &Self) -> (r: bool) {
        lex_less(other.0.as_str(), self.0.as_str())
    }
}

/// The notes of a topic, by name, last first.
pub fn sort_notes(notes: Vec<Link>) -> (r: Vec<Link>)
    ensures
        listed_in_order(r@),
        exists|idx: Seq<int>| #[trigger] stable_arrangement(r@, notes@, idx),
{
    stable_sort(notes)
}

/// The topics of a category, by name, last first.
pub fn sort_topics(topics: Vec<(String, Vec<Link>)>) -> (r: Vec<(String, Vec<Link>)>)
    ensures
        listed_in_order(r@),
        exists|idx: Seq<int>| #[trigger] stable_arrangement(r@, topics@, idx),
{
    stable_sort(topics)
}

/// The categories, by name, last first.
pub fn sort_categories(categories: Notes) -> (r: Notes)
    ensures
        listed_in_order(r@),
        exists|idx: Seq<int>| #[trigger] stable_arrangement(r@, categories@, idx),
{
    stable_sort(categories)
}

/// The homepage of notes.
pub struct NotesHomepage {
    pub title: String,
    pub sidebar: SidebarType,
    pub notes: Notes,
}

/// A notes page.
pub struct NotesTemplate {
    pub title: String,
    pub sidebar: SidebarType,
    pub content: String,
}

impl SourcePath<NotesHomepage> for NotesHomepage {
    /// `{templates_dir}/notes.html`
    fn src_path(templates_dir: &str) -> (r: String)
        ensures
            r@ == templates_dir@ + "/notes.html"@,
    {
        joined_text(templates_dir, "/notes.html")
    }
}

} // verus!
