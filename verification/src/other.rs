//! The "Other" section: idea entries and list-of-links entries read from
//! CSV, and their pages.
use vstd::prelude::*;

use crate::prelude::SourcePath;
use crate::text::joined_text;

use crate::csv::{array_message, csv_sliceable_fields, CsvRow};
use crate::datetime::{spec_parse_csv, DateFormat};
use crate::datetime::date_key;
use crate::primitives::{Link, SidebarType};
use crate::sorting::{
    lemma_newest_then_name, lex_less, listed_in_order, newest_then_name, stable_arrangement,
    stable_sort, ListOrder,
};

verus! {

/// One idea entry.
#[derive(Clone, Debug)]
pub struct IdeaEntry {
    pub date: DateFormat,
    pub name: String,
    pub description: String,
}

/// The array's items as a vector (`From<[T; N]> for Vec<T>`).
#[verifier::external_body]
fn array_to_vec<const N: usize>(a: [String; N]) -> (v: Vec<String>)
    ensures
        v@ == a@,
{
    Vec::from(a)
}

/// One list-of-links entry.
#[derive(Clone, Debug)]
pub struct LolEntry {
    pub date: DateFormat,
    pub url: String,
    pub title: String,
}

impl LolEntry {
    /// The entry a `date,url,title` row gives: exactly three fields, the
    /// first a CSV date.
    pub fn try_from(row: CsvRow) -> (r: Result<LolEntry, String>)
        requires
            csv_sliceable_fields(row.fields@, 0),
        ensures
            row.fields@.len() != 3 ==> (r matches Err(e) && e@ == array_message(
                "lol entry"@,
                row.fields@.len(),
                3,
            )),
            row.fields@.len() == 3 ==> match spec_parse_csv(row.fields@[0]@) {
                Ok(d) => r matches Ok(v) && v.date@ == d && v.url == row.fields@[1] && v.title
                    == row.fields@[2],
                Err(e) => r matches Err(m) && m@ == e,
            },
    {
        let ghost fields = row.fields@;
        let arr: [String; 3] = row.into_array("lol entry")?;
        let mut parts = array_to_vec(arr);
        let title = parts.pop().unwrap();
        let url = parts.pop().unwrap();
        let date = parts.pop().unwrap();
        let date = DateFormat::parse_csv(date.as_str())?;
        Ok(LolEntry { date, url, title })
    }
}

/// Whether date key `ka` with name `na` goes before key `kb` with name
/// `nb` when listed newest first, then by name.
fn newest_then_name_exec(ka: &str, na: &str, kb: &str, nb: &str) -> (r: bool)
    ensures
        r == newest_then_name(ka@, na@, kb@, nb@),
{
    if lex_less(kb, ka) {
        true
    } else if lex_less(ka, kb) {
        false
    } else {
        proof {
            crate::sorting::lemma_lex_total(ka@, kb@);
        }
        lex_less(na, nb)
    }
}

/// Ideas are listed newest first, then by name.
impl ListOrder for IdeaEntry {
    open spec fn goes_before(&self, other: &Self) -> bool {
        newest_then_name(date_key(self.date@), self.name@, date_key(other.date@), other.name@)
    }

    proof fn lemma_list_order(a: &Self, b: &Self, c: &Self) {
        lemma_newest_then_name(
            date_key(a.date@),
            a.name@,
            date_key(b.date@),
            b.name@,
            date_key(c.date@),
            c.name@,
        );
    }

    fn precedes(&self, other: &Self) -> (r: bool) {
        let ka = self.date.as_key();
        let kb = other.date.as_key();
        newest_then_name_exec(ka.as_str(), self.name.as_str(), kb.as_str(), other.name.as_str())
    }
}

/// Links are listed newest first, then by URL.
impl ListOrder for LolEntry {
    open spec fn goes_before(&self, other: &Self) -> bool {
        newest_then_name(date_key(self.date@), self.url@, date_key(other.date@), other.url@)
    }

    proof fn lemma_list_order(a: &Self, b: &Self, c: &Self) {
        lemma_newest_then_name(
            date_key(a.date@),
            a.url@,
            date_key(b.date@),
            b.url@,
            date_key(c.date@),
            c.url@,
        );
    }

    fn precedes(&self, other: &Self) -> (r: bool) {
        let ka = self.date.as_key();
        let kb = other.date.as_key();
        newest_then_name_exec(ka.as_str(), self.url.as_str(), kb.as_str(), other.url.as_str())
    }
}

/// The ideas in reverse chronological order, ties by name; entries equal
/// in both keep their order.
pub fn sort_ideas(entries: Vec<IdeaEntry>) -> (r: Vec<IdeaEntry>)
    ensures
        listed_in_order(r@),
        exists|idx: Seq<int>| #[trigger] stable_arrangement(r@, entries@, idx),
{
    stable_sort(entries)
}

/// The links in reverse chronological order, ties by URL; entries equal
/// in both keep their order.
pub fn sort_links(entries: Vec<LolEntry>) -> (r: Vec<LolEntry>)
    ensures
        listed_in_order(r@),
        exists|idx: Seq<int>| #[trigger] stable_arrangement(r@, entries@, idx),
{
    stable_sort(entries)
}

/// The ideas page.
pub struct IdeasPage {
    pub title: String,
    pub sidebar: SidebarType,
    pub entries: Vec<IdeaEntry>,
}

/// The list-of-links page.
pub struct LolPage {
    pub title: String,
    pub sidebar: SidebarType,
    pub entries: Vec<LolEntry>,
}

/// The Other category landing page.
pub struct OtherHomepage {
    pub title: String,
    pub sidebar: SidebarType,
    pub links: Vec<Link>,
}

impl SourcePath<OtherHomepage> for OtherHomepage {
    /// `{templates_dir}/other/other-homepage.html`
    fn src_path(templates_dir: &str) -> (r: String)
        ensures
            r@ == templates_dir@ + "/other/other-homepage.html"@,
    {
        joined_text(templates_dir, "/other/other-homepage.html")
    }
}

impl SourcePath<IdeasPage> for IdeasPage {
    /// `{templates_dir}/other/ideas.html`
    fn src_path(templates_dir: &str) -> (r: String)
        ensures
            r@ == templates_dir@ + "/other/ideas.html"@,
    {
        joined_text(templates_dir, "/other/ideas.html")
    }
}

impl SourcePath<LolPage> for LolPage {
    /// `{templates_dir}/other/lol.html`
    fn src_path(templates_dir: &str) -> (r: String)
        ensures
            r@ == templates_dir@ + "/other/lol.html"@,
    {
        joined_text(templates_dir, "/other/lol.html")
    }
}

} // verus!
