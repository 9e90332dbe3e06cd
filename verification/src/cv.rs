//! The CV's visibility switches and where it is deployed.
use vstd::prelude::*;

use crate::csv::same_chars;
use crate::markdown::{join, join_path};
use crate::text::{chars_of, push_str, string_from_chars};

verus! {

/// CV configuration, describing how the CV is reachable and where it lives.
///
/// The two switches are independent, and together cover three states:
///
/// * `cv_findable` + `cv_url_servable`: fully public
/// * `cv_url_servable` only: unlisted -- the URL serves, nothing links to it
/// * neither: gone -- the URL 404s and nothing links to it
pub struct CvConfig {
    /// Whether the CV can be found from the site; when false every CV link
    /// is suppressed.
    pub cv_findable: bool,
    /// Whether the CV URL serves the file; cannot be false while
    /// `cv_findable` is true.
    pub cv_url_servable: bool,
    /// The CV link identity: the home-tab `id` and navbar `disp` of the CV entries.
    pub id: String,
    /// The CV's path under the deploy folder, deleted when not servable.
    pub deploy_path: String,
}

/// Why a configuration is refused: it would link the CV without deploying it.
pub open spec fn contradiction_message(deploy_path: Seq<char>) -> Seq<char> {
    "`cv.json`: `cv_findable` is true while `cv_url_servable` is false, which would link `/"@
        + deploy_path + "` from the site without deploying it"@
}

impl CvConfig {
    /// The default for both visibility switches: on.
    pub fn enabled() -> (b: bool)
        ensures
            b,
    {
        true
    }

    /// The refusal that [`CvConfig::validate`] stands for, as text: `Some`
    /// exactly when the two switches contradict each other (a findable CV
    /// that is not servable, whose every link would resolve to a 404).
    pub fn contradiction(&self) -> (r: Option<String>)
        ensures
            match r {
                Some(e) => self.cv_findable && !self.cv_url_servable && e@ == contradiction_message(
                    self.deploy_path@,
                ),
                None => !(self.cv_findable && !self.cv_url_servable),
            },
    {
        if self.cv_findable && !self.cv_url_servable {
            let mut out: Vec<char> = Vec::new();
            push_str(
                &mut out,
                "`cv.json`: `cv_findable` is true while `cv_url_servable` is false, which would link `/",
            );
            push_str(&mut out, self.deploy_path.as_str());
            push_str(&mut out, "` from the site without deploying it");
            assert(out@ =~= contradiction_message(self.deploy_path@));
            return Some(string_from_chars(&out));
        }
        None
    }

    /// Checks, once and up front, that the two switches do not contradict
    /// each other: a findable CV must be servable. A contradicting
    /// configuration is refused before this is reached (see
    /// [`CvConfig::contradiction`] for its message).
    pub fn validate(&self)
        requires
            !(self.cv_findable && !self.cv_url_servable),
    {
    }

    /// The deployed copy to remove when the CV is not servable: the CV's
    /// path under `deploy_dir`; `None` when the URL should serve it. (It
    /// reaches the deploy folder by other means, so an unservable one must
    /// be removed; a missing one is fine.)
    pub fn unservable_copy(&self, deploy_dir: &str) -> (r: Option<String>)
        ensures
            match r {
                Some(p) => !self.cv_url_servable && p@ == join(deploy_dir@, self.deploy_path@),
                None => self.cv_url_servable,
            },
    {
        if self.cv_url_servable {
            return None;
        }
        Some(join_path(deploy_dir, self.deploy_path.as_str()))
    }

    /// Whether a CV link with this `id` should be suppressed: only when the
    /// CV is unfindable and the `id` is the CV's.
    pub fn suppresses(&self, id: &str) -> (b: bool)
        ensures
            b == (!self.cv_findable && id@ == self.id@),
    {
        !self.cv_findable && same_chars(&chars_of(id), &chars_of(self.id.as_str()))
    }
}

} // verus!
