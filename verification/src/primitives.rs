//! Small shared value types: sidebar kinds, source kinds, links and
//! table-of-contents entries.
use vstd::prelude::*;

verus! {

/// The type of sidebar, and the contents to display.
#[derive(Clone, Debug, PartialEq, Eq, Structural)]
pub enum SidebarType {
    Projects,
    Posts,
    GatorOnly,
    Blog,
    Other,
}

impl Default for SidebarType {
    /// The sidebar with only the gator.
    fn default() -> (r: SidebarType)
        ensures
            r == SidebarType::GatorOnly,
    {
        SidebarType::GatorOnly
    }
}

/// The source type, if multiple sources can be generated into HTML.
#[derive(Clone, Debug, PartialEq, Eq, Structural)]
pub enum SourceType {
    Html,
    Markdown,
}

/// A link.
#[derive(Clone, Debug)]
pub struct Link {
    /// The name of the link
    pub name: String,
    /// The URL of the link
    pub url: String,
}

/// A table-of-contents entry extracted from an HTML heading.
#[derive(Clone, Debug)]
pub struct TocEntry {
    /// Heading level (1-6)
    pub level: u8,
    /// The `id` attribute of the heading (used for anchor links)
    pub id: String,
    /// Plain-text content of the heading
    pub text: String,
}

} // verus!
