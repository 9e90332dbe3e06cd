//! The traits that page types share.
use vstd::prelude::*;

verus! {

/// Rendering custom (safe) HTML from an element.
pub trait Render {
    /// The element as HTML.
    fn render(&self) -> String;
}

/// Generating a static element for templating.
pub trait Create: Sized {
    /// The element, built from the site's data.
    fn create() -> Self;
}

/// Where a page type's template lies.
pub trait SourcePath<T> {
    /// The page's template file under `templates_dir`.
    fn src_path(templates_dir: &str) -> String;
}

} // verus!
