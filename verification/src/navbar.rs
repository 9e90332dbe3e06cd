//! The navigation bar.
use vstd::prelude::*;

verus! {

/// A link in the navigation bar.
#[derive(Clone, Debug)]
pub struct NavbarLink {
    /// The name of the link being displayed
    pub disp: String,
    /// The URL of the link
    pub link: String,
}

/// A list of links in the navigation bar.
pub struct Navbar {
    pub links: Vec<NavbarLink>,
}

impl Navbar {
    /// A navigation bar with these links, in order.
    pub fn new(links: Vec<NavbarLink>) -> (r: Navbar)
        ensures
            r.links == links,
    {
        Navbar { links }
    }
}

} // verus!
