//! The regular-expression searches the site generator makes, through
//! `fancy_regex`, and the text operations built from their results.
use vstd::prelude::*;

use crate::text::{byte_slice, index_at_byte, lemma_char_index_at, sub_chars};

verus! {

/// Byte span of one capture group.
pub type Span = (usize, usize);

/// The groups of one match: the byte span of each capture group, group 0
/// being the whole match; `None` for a group that took no part.
pub type Groups = Vec<Option<Span>>;

/// What `fancy_regex` reports for `pattern` over `text`: `None` when the
/// pattern does not compile; otherwise one entry per item that
/// `Regex::captures_iter` yields, `None` where that item is an engine error
/// (such as an exceeded backtrack limit), else the byte spans of its groups.
pub uninterp spec fn regex_capture_spans(pattern: Seq<char>, text: Seq<char>) -> Option<
    Seq<Option<Seq<Option<(nat, nat)>>>>,
>;

/// What `Regex::try_replacen(text, limit, rep)` gives for `pattern`, the
/// replacement `rep` read as a template (`$name`, `${name}`, `$$`): `None`
/// when the pattern does not compile or the engine reports an error.
pub uninterp spec fn regex_replacen_text(
    pattern: Seq<char>,
    text: Seq<char>,
    limit: nat,
    rep: Seq<char>,
) -> Option<Seq<char>>;

/// Whether `pattern` compiles (`Regex::new(pattern)` is `Ok`).
pub uninterp spec fn regex_compiles(pattern: Seq<char>) -> bool;

/// What the first match of `pattern` in `text` (`Regex::captures`) gives
/// for each of `names`, looked up with `Captures::name`: the byte span of
/// that named group, `None` for a name that took no part or names no
/// group. `None` as a whole when the pattern does not compile, nothing
/// matches, or the engine reports an error.
pub uninterp spec fn regex_named_spans(pattern: Seq<char>, text: Seq<char>, names: Seq<Seq<char>>) -> Option<
    Seq<Option<(nat, nat)>>,
>;

/// Names as plain values.
pub open spec fn names_view(names: Seq<String>) -> Seq<Seq<char>> {
    names.map_values(|n: String| n@)
}

/// The groups of one match as plain values.
pub open spec fn groups_view(g: Groups) -> Seq<Option<(nat, nat)>> {
    g@.map_values(|s: Option<Span>| match s {
        Some((a, b)) => Some((a as nat, b as nat)),
        None => None,
    })
}

/// A capture report as plain values.
pub open spec fn report_view(r: Option<Vec<Option<Groups>>>) -> Option<
    Seq<Option<Seq<Option<(nat, nat)>>>>,
> {
    match r {
        Some(items) => Some(
            items@.map_values(|it: Option<Groups>| match it {
                Some(g) => Some(groups_view(g)),
                None => None,
            }),
        ),
        None => None,
    }
}

/// Every span lies on char boundaries of `text`, in order; every match has
/// its whole-match group; successive matches do not overlap.
pub open spec fn spans_well_placed(text: Seq<char>, items: Seq<Option<Seq<Option<(nat, nat)>>>>) -> bool {
    &&& forall|i: int, k: int|
        #![trigger items[i]->Some_0[k]]
        0 <= i < items.len() && items[i] is Some && 0 <= k < items[i]->Some_0.len()
            && items[i]->Some_0[k] is Some ==> byte_slice(
            text,
            items[i]->Some_0[k]->Some_0.0 as int,
            items[i]->Some_0[k]->Some_0.1 as int,
        ) is Some
    &&& forall|i: int|
        #![trigger items[i]]
        0 <= i < items.len() && items[i] is Some ==> items[i]->Some_0.len() >= 1
            && items[i]->Some_0[0] is Some
    &&& forall|i: int, j: int|
        #![trigger items[i], items[j]]
        0 <= i < j < items.len() && items[i] is Some && items[j] is Some ==> items[i]->Some_0[0]->Some_0.1
            <= items[j]->Some_0[0]->Some_0.0
}

/// The two patterns the site searches with: `<(.*?)>` and the heading
/// pattern. Neither uses look-around or `\K`, so `fancy_regex` hands them
/// to its plain engine, whose matches come left to right without overlap,
/// each from its start to its end on char boundaries. (With `\K` inside a
/// look-around, `fancy_regex` can report a match that starts before the
/// previous one ends, so nothing is claimed of other patterns.)
pub open spec fn site_search_pattern(p: Seq<char>) -> bool {
    p == crate::pathpattern::BRACKET_PATTERN@ || p == crate::markdown::HEADING_PATTERN@
}

/// The capture report of `pattern` over `text` (see [`regex_capture_spans`]).
/// For the site's own search patterns, matches are reported left to right
/// without overlap, each with group 0, and every span is a valid byte range
/// of `text`, as `Match::as_str` slicing them shows.
#[verifier::external_body]
pub(crate) fn capture_spans(pattern: &str, text: &str) -> (r: Option<Vec<Option<Groups>>>)
    ensures
        report_view(r) == regex_capture_spans(pattern@, text@),
        r matches Some(items) && site_search_pattern(pattern@) ==> spans_well_placed(
            text@,
            report_view(r)->Some_0,
        ),
{
    let re = fancy_regex::Regex::new(pattern).ok()?;
    let items = re.captures_iter(text).map(|c| {
        c.ok().map(|c| (0..c.len()).map(|i| c.get(i).map(|m| (m.start(), m.end()))).collect())
    });
    Some(items.collect())
}

/// `Regex::try_replacen` for `pattern` (see [`regex_replacen_text`]).
#[verifier::external_body]
pub(crate) fn replacen(pattern: &str, text: &str, limit: usize, rep: &str) -> (r: Option<String>)
    ensures
        match r {
            Some(s) => regex_replacen_text(pattern@, text@, limit as nat, rep@) == Some(s@),
            None => regex_replacen_text(pattern@, text@, limit as nat, rep@) is None,
        },
{
    let re = fancy_regex::Regex::new(pattern).ok()?;
    re.try_replacen(text, limit, rep).ok().map(|s| s.into_owned())
}

/// The text of a byte span of `text` (meaningful for a well-placed span).
pub open spec fn span_text(text: Seq<char>, span: (nat, nat)) -> Seq<char> {
    byte_slice(text, span.0 as int, span.1 as int)->Some_0
}

/// The chars of a well-placed byte span of `text`.
pub fn span_chars(text: &Vec<char>, span: Span) -> (r: Vec<char>)
    requires
        byte_slice(text@, span.0 as int, span.1 as int) is Some,
    ensures
        r@ == span_text(text@, (span.0 as nat, span.1 as nat)),
{
    proof {
        lemma_char_index_at(text@, span.0 as int);
        lemma_char_index_at(text@, span.1 as int);
    }
    let a = index_at_byte(text, span.0).unwrap();
    let b = index_at_byte(text, span.1).unwrap();
    sub_chars(text, a, b)
}

/// Whether `pattern` compiles: `fancy_regex::Regex::new(pattern).is_ok()`
/// (see [`regex_compiles`]).
#[verifier::external_body]
pub(crate) fn compiles(pattern: &str) -> (b: bool)
    ensures
        b == regex_compiles(pattern@),
{
    fancy_regex::Regex::new(pattern).is_ok()
}

/// `Regex::captures` of `pattern` over `text`, each of `names` looked up
/// with `Captures::name` (see [`regex_named_spans`]). One span per name,
/// each a valid byte range of `text`, as `Match::as_str` slicing them
/// shows.
#[verifier::external_body]
pub(crate) fn named_capture_spans(pattern: &str, text: &str, names: &Vec<String>) -> (r: Option<Vec<Option<Span>>>)
    ensures
        match r {
            Some(v) => regex_named_spans(pattern@, text@, names_view(names@)) == Some(groups_view(v)),
            None => regex_named_spans(pattern@, text@, names_view(names@)) is None,
        },
        r matches Some(v) ==> v@.len() == names@.len() && forall|k: int|
            0 <= k < v@.len() && #[trigger] v@[k] is Some ==> byte_slice(
                text@,
                v@[k]->Some_0.0 as int,
                v@[k]->Some_0.1 as int,
            ) is Some,
{
    let re = fancy_regex::Regex::new(pattern).ok()?;
    let caps = re.captures(text).ok()??;
    Some(names.iter().map(|n| caps.name(n).map(|m| (m.start(), m.end()))).collect())
}

} // verus!
