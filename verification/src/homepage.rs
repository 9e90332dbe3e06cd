//! The landing page and its tabs.
use vstd::prelude::*;

use crate::prelude::SourcePath;
use crate::text::joined_text;

use crate::prelude::Render;
use crate::text::{chars_of, push_str, string_from_chars};

verus! {

/// Social link structure, one per social media site.
#[derive(Clone, Debug)]
pub struct SocialTabLink {
    /// The name of the social media website
    pub name: String,
    /// The URL of the link
    pub url: String,
    /// The icon of the social media site
    pub img_src: String,
    /// The icon of the social media site when hovered
    pub img_hvr_src: String,
}

/// The tabs on the home page which have custom bodies.
#[derive(Clone)]
pub enum TabBodyType {
    /// The "about me" tab
    AboutMe,
    /// The contact tab
    Contact,
    /// The tab with links to socials
    Socials(Vec<SocialTabLink>),
}

/// A tab head on the home page.
#[derive(Clone)]
pub struct TabHead {
    /// The id of the tab, used in `div id={{ id }}`
    pub id: String,
    /// A provided link, if any
    pub link: Option<String>,
    /// The HTML tag of the title
    pub tag: String,
    /// The title of the tab, used in `<{{ tag }}>{{ title }}</{{ tag }}>`
    pub title: String,
}

/// `<{tag}>{title}</{tag}>`
pub open spec fn title_html(tag: Seq<char>, title: Seq<char>) -> Seq<char> {
    "<"@ + tag + ">"@ + title + "</"@ + tag + ">"@
}

/// The tab head as HTML: its title, wrapped in a link when it has one.
pub open spec fn tab_head_html(h: TabHead) -> Seq<char> {
    match h.link {
        Some(link) => "<a href=\""@ + link@ + "\">"@ + title_html(h.tag@, h.title@) + "</a>"@,
        None => title_html(h.tag@, h.title@),
    }
}

impl TabHead {
    /// Renders the title of the tab, using its HTML tag.
    pub fn render_title(&self) -> (r: String)
        ensures
            r@ == title_html(self.tag@, self.title@),
    {
        let mut out: Vec<char> = Vec::new();
        push_str(&mut out, "<");
        push_str(&mut out, self.tag.as_str());
        push_str(&mut out, ">");
        push_str(&mut out, self.title.as_str());
        push_str(&mut out, "</");
        push_str(&mut out, self.tag.as_str());
        push_str(&mut out, ">");
        assert(out@ =~= title_html(self.tag@, self.title@));
        string_from_chars(&out)
    }

    /// A tab head named `name`: that id and title, an `h2` tag, no link.
    pub fn default(name: &str) -> (r: TabHead)
        ensures
            r.id@ == name@,
            r.link is None,
            r.tag@ == "h2"@,
            r.title@ == name@,
    {
        TabHead {
            id: string_from_chars(&chars_of(name)),
            link: None,
            tag: string_from_chars(&chars_of("h2")),
            title: string_from_chars(&chars_of(name)),
        }
    }
}

impl Render for TabHead {
    /// Renders the entire tab head, with or without a link.
    fn render(&self) -> (r: String)
        ensures
            r@ == tab_head_html(*self),
    {
        let title = self.render_title();
        match &self.link {
            Some(link) => {
                let mut out: Vec<char> = Vec::new();
                push_str(&mut out, "<a href=\"");
                push_str(&mut out, link.as_str());
                push_str(&mut out, "\">");
                push_str(&mut out, title.as_str());
                push_str(&mut out, "</a>");
                assert(out@ =~= tab_head_html(*self));
                string_from_chars(&out)
            },
            None => title,
        }
    }
}

/// A tab on the home page: a head and an optional expanding body.
#[derive(Clone)]
pub struct Tab {
    /// Required text/title of the tab
    pub head: TabHead,
    /// Optional expanding body
    pub body: Option<TabBodyType>,
}

impl From<TabHead> for Tab {
    /// A tab with the given head and no body.
    fn from(input: TabHead) -> (r: Tab) {
        Tab { head: input, body: None }
    }
}

impl vstd::std_specs::convert::FromSpecImpl<TabHead> for Tab {
    open spec fn obeys_from_spec() -> bool {
        true
    }

    open spec fn from_spec(v: TabHead) -> Tab {
        Tab { head: v, body: None }
    }
}

/// The home page's tabs, in order: about, contact, the socials (with
/// their links), then one tab for each remaining head, without a body.
pub fn all_tabs(socials: Vec<SocialTabLink>, remaining: Vec<TabHead>) -> (r: Vec<Tab>)
    ensures
        r@.len() == 3 + remaining@.len(),
        r@[0].head.id@ == "about"@ && r@[0].head.title@ == "about"@ && r@[0].head.tag@ == "h2"@
            && r@[0].head.link is None && r@[0].body == Some(TabBodyType::AboutMe),
        r@[1].head.id@ == "contact"@ && r@[1].head.title@ == "contact"@ && r@[1].head.tag@
            == "h2"@ && r@[1].head.link is None && r@[1].body == Some(TabBodyType::Contact),
        r@[2].head.id@ == "socials"@ && r@[2].head.title@ == "socials"@ && r@[2].head.tag@
            == "h2"@ && r@[2].head.link is None && r@[2].body == Some(TabBodyType::Socials(socials)),
        forall|k: int|
            0 <= k < remaining@.len() ==> #[trigger] r@[3 + k] == (Tab { head: remaining@[k], body: None }),
{
    let mut tabs: Vec<Tab> = Vec::new();
    tabs.push(Tab { head: TabHead::default("about"), body: Some(TabBodyType::AboutMe) });
    tabs.push(Tab { head: TabHead::default("contact"), body: Some(TabBodyType::Contact) });
    tabs.push(Tab { head: TabHead::default("socials"), body: Some(TabBodyType::Socials(socials)) });
    let ghost orig = remaining@;
    let n = remaining.len();
    let mut rest = remaining;
    let mut rev: Vec<TabHead> = Vec::new();
    while rest.len() > 0
        invariant
            rest@.len() + rev@.len() == orig.len(),
            orig.len() == n,
            forall|k: int| 0 <= k < rest@.len() ==> #[trigger] rest@[k] == orig[k],
            forall|k: int| 0 <= k < rev@.len() ==> #[trigger] rev@[k] == orig[orig.len() - 1 - k],
        decreases rest.len(),
    {
        let h = rest.pop().unwrap();
        rev.push(h);
    }
    let ghost start = tabs@;
    while rev.len() > 0
        invariant
            tabs@.len() == 3 + (orig.len() - rev@.len()),
            rev@.len() <= orig.len(),
            orig.len() == n,
            forall|k: int| 0 <= k < 3 ==> #[trigger] tabs@[k] == start[k],
            forall|k: int| 0 <= k < rev@.len() ==> #[trigger] rev@[k] == orig[orig.len() - 1 - k],
            forall|k: int|
                0 <= k < tabs@.len() - 3 ==> #[trigger] tabs@[3 + k] == (Tab { head: orig[k], body: None }),
        decreases rev.len(),
    {
        let h = rev.pop().unwrap();
        let ghost before = tabs@;
        tabs.push(Tab::from(h));
        assert forall|k: int| 0 <= k < tabs@.len() - 3 implies #[trigger] tabs@[3 + k] == (Tab {
            head: orig[k],
            body: None,
        }) by {
            if k < before.len() - 3 {
                assert(tabs@[3 + k] == before[3 + k]);
            }
        }
    }
    tabs
}

/// The home / main page.
pub struct LandingPage {
    /// Page title
    pub title: String,
    /// The tabs, in display order
    pub tabs: Vec<Tab>,
}

impl SourcePath<LandingPage> for LandingPage {
    /// `{templates_dir}/homepage/index.html`
    fn src_path(templates_dir: &str) -> (r: String)
        ensures
            r@ == templates_dir@ + "/homepage/index.html"@,
    {
        joined_text(templates_dir, "/homepage/index.html")
    }
}

} // verus!
