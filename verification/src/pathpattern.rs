//! Path patterns for deployment: a source path with `<name>` placeholders
//! is turned into a glob (which files to take) and a regex (what each name
//! captured), and a destination pattern is filled in from the captures.
use vstd::prelude::*;

use crate::csv::same_chars;
use crate::markdown::{find_from, find_sub, occurs_at, starts_with};
use crate::deployment::pairs_view;
use crate::regex::{
    capture_spans, compiles, groups_view, named_capture_spans, names_view, regex_capture_spans,
    regex_compiles, regex_named_spans, regex_replacen_text, replacen, report_view, span_chars,
    span_text, spans_well_placed, Groups,
};
use crate::text::{chars_of, string_from_chars};

verus! {

// --------------------------------------------------
// plain text replacement
// --------------------------------------------------
/// `s` with each occurrence of `from`, taken left to right without
/// overlap, replaced by `to` (`str::replace`, for a non-empty `from`).
pub open spec fn replace_all_text(s: Seq<char>, from: Seq<char>, to: Seq<char>) -> Seq<char>
    decreases s.len(),
{
    if from.len() == 0 || s.len() == 0 {
        s
    } else if starts_with(s, from) {
        to + replace_all_text(s.subrange(from.len() as int, s.len() as int), from, to)
    } else {
        seq![s[0]] + replace_all_text(s.drop_first(), from, to)
    }
}

/// `s` with each occurrence of `from` replaced by `to`.
pub fn replace_text(s: &Vec<char>, from: &Vec<char>, to: &Vec<char>) -> (r: Vec<char>)
    requires
        from@.len() > 0,
    ensures
        r@ == replace_all_text(s@, from@, to@),
{
    let mut out: Vec<char> = Vec::new();
    let mut i: usize = 0;
    assert(s@.subrange(0, s.len() as int) =~= s@);
    while i < s.len()
        invariant
            i <= s.len(),
            from@.len() > 0,
            out@ + replace_all_text(s@.subrange(i as int, s.len() as int), from@, to@)
                == replace_all_text(s@, from@, to@),
        decreases s.len() - i,
    {
        let ghost rest = s@.subrange(i as int, s.len() as int);
        if occurs_at(s, from, i) {
            assert(rest.subrange(from@.len() as int, rest.len() as int) =~= s@.subrange(
                i + from@.len(),
                s.len() as int,
            ));
            let ghost before = out@;
            let ghost after = replace_all_text(
                s@.subrange(i + from@.len(), s.len() as int),
                from@,
                to@,
            );
            let mut t = to.clone();
            assert(t@ == to@);
            out.append(&mut t);
            i = i + from.len();
            assert(out@ + after =~= before + (to@ + after));
        } else {
            assert(rest.drop_first() =~= s@.subrange(i + 1, s.len() as int));
            let ghost before = out@;
            out.push(s[i]);
            assert(out@ =~= before + seq![rest[0]]);
            i = i + 1;
        }
    }
    assert(s@.subrange(i as int, s.len() as int) =~= Seq::<char>::empty());
    assert(out@ + Seq::<char>::empty() =~= out@);
    out
}

// --------------------------------------------------
// placeholder names
// --------------------------------------------------
/// Captures everything between `<` and the next `>`.
pub const BRACKET_PATTERN: &'static str = "<(.*?)>";

/// `<name>`
pub open spec fn bracketed(name: Seq<char>) -> Seq<char> {
    "<"@ + name + ">"@
}

/// The texts of group `g` of the matches in `items`, in order, skipping
/// items the engine failed on and matches where the group took no part.
pub open spec fn group_texts(text: Seq<char>, items: Seq<Option<Seq<Option<(nat, nat)>>>>, g: int) -> Seq<
    Seq<char>,
>
    decreases items.len(),
{
    if items.len() == 0 {
        Seq::empty()
    } else {
        let r = group_texts(text, items.drop_last(), g);
        match items.last() {
            Some(gs) => if 0 <= g < gs.len() && gs[g] is Some {
                r.push(span_text(text, gs[g]->Some_0))
            } else {
                r
            },
            None => r,
        }
    }
}

/// `s` with repeats dropped, the first occurrence of each kept, in order.
pub open spec fn first_occurrences(s: Seq<Seq<char>>) -> Seq<Seq<char>>
    decreases s.len(),
{
    if s.len() == 0 {
        Seq::empty()
    } else {
        let d = first_occurrences(s.drop_last());
        if d.contains(s.last()) {
            d
        } else {
            d.push(s.last())
        }
    }
}

/// The placeholder names of `text`: what each `<...>` encloses, each name
/// once, in the order they first occur.
pub open spec fn bracket_names(text: Seq<char>) -> Seq<Seq<char>> {
    match regex_capture_spans(BRACKET_PATTERN@, text) {
        Some(items) => first_occurrences(group_texts(text, items, 1)),
        None => Seq::empty(),
    }
}

/// Strings as plain values.
pub open spec fn strings_view(v: Seq<String>) -> Seq<Seq<char>> {
    v.map_values(|x: String| x@)
}

/// No name occurs twice.
pub open spec fn all_distinct(s: Seq<Seq<char>>) -> bool {
    forall|a: int, b: int| 0 <= a < b < s.len() ==> #[trigger] s[a] != #[trigger] s[b]
}

/// `first_occurrences` keeps each element once, and every element.
pub proof fn lemma_first_occurrences(s: Seq<Seq<char>>)
    ensures
        all_distinct(first_occurrences(s)),
        forall|x: Seq<char>| #[trigger] first_occurrences(s).contains(x) <==> s.contains(x),
    decreases s.len(),
{
    if s.len() > 0 {
        lemma_first_occurrences(s.drop_last());
        let d = first_occurrences(s.drop_last());
        let l = s.last();
        let sp = s.drop_last();
        assert forall|x: Seq<char>| s.contains(x) <==> (sp.contains(x) || x == l) by {
            if s.contains(x) {
                let i = choose|i: int| 0 <= i < s.len() && s[i] == x;
                if i < s.len() - 1 {
                    assert(sp[i] == x);
                }
            }
            if sp.contains(x) {
                let i = choose|i: int| 0 <= i < sp.len() && sp[i] == x;
                assert(s[i] == x);
            }
            if x == l {
                assert(s[s.len() - 1] == x);
            }
        }
        if !d.contains(l) {
            let e = d.push(l);
            assert forall|x: Seq<char>| e.contains(x) <==> (d.contains(x) || x == l) by {
                if e.contains(x) {
                    let k = choose|k: int| 0 <= k < e.len() && e[k] == x;
                    if k < d.len() {
                        assert(d[k] == x);
                    }
                }
                if d.contains(x) {
                    let k = choose|k: int| 0 <= k < d.len() && d[k] == x;
                    assert(e[k] == x);
                }
                if x == l {
                    assert(e[d.len() as int] == x);
                }
            }
            assert forall|a: int, b: int| 0 <= a < b < e.len() implies #[trigger] e[a] != #[trigger] e[b] by {
                if b == d.len() {
                    assert(e[a] == d[a]);
                } else {
                    assert(e[a] == d[a] && e[b] == d[b]);
                }
            }
        }
    }
}

/// The texts of group `group` of each successful match in `report` (what
/// `captures_iter` gave over `text`), each text once, in the order they
/// first occur; none when the pattern did not compile.
pub fn unique_group_texts(text: &str, report: &Option<Vec<Option<Groups>>>, group: usize) -> (r: Vec<String>)
    requires
        report matches Some(items) ==> spans_well_placed(text@, report_view(*report)->Some_0),
    ensures
        strings_view(r@) == match report_view(*report) {
            Some(items) => first_occurrences(group_texts(text@, items, group as int)),
            None => Seq::empty(),
        },
{
    let items = match report {
        Some(items) => items,
        None => {
            let r: Vec<String> = Vec::new();
            assert(strings_view(r@) =~= Seq::<Seq<char>>::empty());
            return r;
        },
    };
    let ghost iv = report_view(*report)->Some_0;
    let cs = chars_of(text);
    let mut seen: Vec<Vec<char>> = Vec::new();
    let mut i: usize = 0;
    while i < items.len()
        invariant
            i <= items@.len(),
            cs@ == text@,
            iv == report_view(*report)->Some_0,
            *report == Some(*items),
            iv.len() == items@.len(),
            spans_well_placed(text@, iv),
            seen@.len() == first_occurrences(group_texts(text@, iv.take(i as int), group as int)).len(),
            forall|k: int|
                0 <= k < seen@.len() ==> #[trigger] seen@[k]@ == first_occurrences(
                    group_texts(text@, iv.take(i as int), group as int),
                )[k],
        decreases items.len() - i,
    {
        let ghost pre = iv.take(i + 1);
        assert(pre.drop_last() =~= iv.take(i as int));
        assert(pre.last() == iv[i as int]);
        let ghost texts0 = group_texts(text@, iv.take(i as int), group as int);
        let ghost d0 = first_occurrences(texts0);
        match &items[i] {
            Some(g) => {
                assert(iv[i as int] == Some(crate::regex::groups_view(*g)));
                if group < g.len() {
                    match g[group] {
                        Some(span) => {
                            assert(crate::regex::groups_view(*g)[group as int] == Some(
                                (span.0 as nat, span.1 as nat),
                            ));
                            let t = span_chars(&cs, span);
                            let mut found = false;
                            let mut k: usize = 0;
                            while k < seen.len()
                                invariant
                                    k <= seen@.len(),
                                    found == exists|q: int| 0 <= q < k && seen@[q]@ == t@,
                                decreases seen.len() - k,
                            {
                                if same_chars(&seen[k], &t) {
                                    found = true;
                                }
                                k = k + 1;
                            }
                            proof {
                                let texts1 = group_texts(text@, pre, group as int);
                                assert(texts1 == texts0.push(t@));
                                assert(texts1.drop_last() == texts0);
                                if found {
                                    let q = choose|q: int| 0 <= q < k && seen@[q]@ == t@;
                                    assert(d0[q] == t@);
                                    assert(d0.contains(t@));
                                } else {
                                    if d0.contains(t@) {
                                        let q = choose|q: int| 0 <= q < d0.len() && d0[q] == t@;
                                        assert(seen@[q]@ == t@);
                                    }
                                }
                            }
                            if !found {
                                seen.push(t);
                            }
                        },
                        None => {},
                    }
                }
            },
            None => {
                assert(iv[i as int] is None);
            },
        }
        i = i + 1;
    }
    assert(iv.take(items.len() as int) =~= iv);
    let mut r: Vec<String> = Vec::new();
    let mut k: usize = 0;
    while k < seen.len()
        invariant
            k <= seen@.len(),
            r@.len() == k,
            forall|q: int| 0 <= q < k ==> #[trigger] r@[q]@ == seen@[q]@,
        decreases seen.len() - k,
    {
        r.push(string_from_chars(&seen[k]));
        k = k + 1;
    }
    assert(strings_view(r@) =~= first_occurrences(group_texts(text@, iv, group as int)));
    r
}

impl PathPattern {
    /// Captures all unique bracketed items: `<folder>` gives `folder`; each
    /// name once, in the order the names first occur.
    pub fn get_uniq_bracketized(text: &str) -> (r: Vec<String>)
        ensures
            strings_view(r@) == bracket_names(text@),
    {
        let report = capture_spans(BRACKET_PATTERN, text);
        unique_group_texts(text, &report, 1)
    }
}

/// Law: the placeholder names of a text are distinct, and they are
/// exactly the names its `<...>` matches enclose.
pub proof fn law_bracket_names_distinct(text: Seq<char>)
    ensures
        all_distinct(bracket_names(text)),
        regex_capture_spans(BRACKET_PATTERN@, text) matches Some(items) ==> forall|x: Seq<char>|
            #[trigger] bracket_names(text).contains(x) <==> group_texts(text, items, 1).contains(x),
{
    if let Some(items) = regex_capture_spans(BRACKET_PATTERN@, text) {
        lemma_first_occurrences(group_texts(text, items, 1));
    }
}

// --------------------------------------------------
// glob
// --------------------------------------------------
/// The glob for a source pattern: every `<...>` becomes `*`, then every
/// `**` becomes `*`; `None` where the regex replacement fails.
pub open spec fn spec_init_glob(text: Seq<char>) -> Option<Seq<char>> {
    match regex_replacen_text(BRACKET_PATTERN@, text, 0, "*"@) {
        Some(t) => Some(replace_all_text(t, "**"@, "*"@)),
        None => None,
    }
}

impl PathPattern {
    /// Gets the glob string for a source path pattern (see [`spec_init_glob`]).
    pub fn init_glob(text: &str) -> (r: Option<String>)
        ensures
            match spec_init_glob(text@) {
                Some(g) => r matches Some(s) && s@ == g,
                None => r is None,
            },
    {
        let stars = replacen(BRACKET_PATTERN, text, 0, "*")?;
        proof {
            reveal_strlit("**");
        }
        let out = replace_text(&chars_of(stars.as_str()), &chars_of("**"), &chars_of("*"));
        Some(string_from_chars(&out))
    }
}

// --------------------------------------------------
// regex
// --------------------------------------------------
/// `(?P<name>.*)`: the named group a placeholder's first instance becomes.
pub open spec fn group_syntax(name: Seq<char>) -> Seq<char> {
    "(?P<"@ + name + ">.*)"@
}

/// `\k<name>`: the back-reference later instances become.
pub open spec fn backref_syntax(name: Seq<char>) -> Seq<char> {
    "\\k<"@ + name + ">"@
}

/// `(?<!\(\?P)<name>`: an instance of a placeholder that is not the named
/// group itself.
pub open spec fn later_instance(name: Seq<char>) -> Seq<char> {
    "(?<!\\(\\?P)<"@ + name + ">"@
}

/// For each name in turn, the first `<name>` of `t` made the named group;
/// with the text, the names that still occur as `<name>` after that, in
/// order. `None` where a replacement fails.
pub open spec fn with_groups(t: Seq<char>, names: Seq<Seq<char>>) -> Option<(Seq<char>, Seq<Seq<char>>)>
    decreases names.len(),
{
    if names.len() == 0 {
        Some((t, Seq::empty()))
    } else {
        match with_groups(t, names.drop_last()) {
            None => None,
            Some((t1, again)) => {
                let n = names.last();
                match regex_replacen_text(bracketed(n), t1, 1, group_syntax(n)) {
                    None => None,
                    Some(t2) => Some(
                        (
                            t2,
                            if find_sub(t2, bracketed(n)) is Some {
                                again.push(n)
                            } else {
                                again
                            },
                        ),
                    ),
                }
            },
        }
    }
}

/// For each name in turn, its later instances in `t` made back-references;
/// `None` where a replacement fails.
pub open spec fn with_backrefs(t: Seq<char>, names: Seq<Seq<char>>) -> Option<Seq<char>>
    decreases names.len(),
{
    if names.len() == 0 {
        Some(t)
    } else {
        match with_backrefs(t, names.drop_last()) {
            None => None,
            Some(t1) => regex_replacen_text(
                later_instance(names.last()),
                t1,
                0,
                backref_syntax(names.last()),
            ),
        }
    }
}

/// The regex for a source path pattern, with its placeholder names: dots
/// escaped, each placeholder's first instance a named group and its later
/// ones back-references, each `*` one or more non-`/` chars. `None` where
/// a replacement fails.
pub open spec fn spec_init_regex(text: Seq<char>) -> Option<(Seq<Seq<char>>, Seq<char>)> {
    let names = bracket_names(text);
    match with_groups(replace_all_text(text, "."@, "\\."@), names) {
        None => None,
        Some((t1, again)) => match with_backrefs(t1, again) {
            None => None,
            Some(t2) => Some((names, replace_all_text(t2, "*"@, "[^/]+"@))),
        },
    }
}

/// Once a replacement fails, naming more groups fails too.
proof fn lemma_with_groups_fails(t: Seq<char>, names: Seq<Seq<char>>, j: int)
    requires
        0 <= j <= names.len(),
        with_groups(t, names.take(j)) is None,
    ensures
        with_groups(t, names) is None,
    decreases names.len() - j,
{
    if j < names.len() {
        let pre = names.take(j + 1);
        assert(pre.drop_last() =~= names.take(j));
        lemma_with_groups_fails(t, names, j + 1);
    } else {
        assert(names.take(j) =~= names);
    }
}

/// Once a replacement fails, adding more back-references fails too.
proof fn lemma_with_backrefs_fails(t: Seq<char>, names: Seq<Seq<char>>, j: int)
    requires
        0 <= j <= names.len(),
        with_backrefs(t, names.take(j)) is None,
    ensures
        with_backrefs(t, names) is None,
    decreases names.len() - j,
{
    if j < names.len() {
        let pre = names.take(j + 1);
        assert(pre.drop_last() =~= names.take(j));
        lemma_with_backrefs_fails(t, names, j + 1);
    } else {
        assert(names.take(j) =~= names);
    }
}

/// `{lead}{name}{tail}` as a `String`.
fn wrap_name(lead: &str, name: &str, tail: &str) -> (r: String)
    ensures
        r@ == lead@ + name@ + tail@,
{
    let mut out: Vec<char> = Vec::new();
    crate::text::push_str(&mut out, lead);
    crate::text::push_str(&mut out, name);
    crate::text::push_str(&mut out, tail);
    assert(out@ =~= lead@ + name@ + tail@);
    string_from_chars(&out)
}

impl PathPattern {
    /// Gets the regex string, and the placeholder names, for a source path
    /// pattern (see [`spec_init_regex`]).
    pub fn init_regex(text: &str) -> (r: Option<(Vec<String>, String)>)
        ensures
            match spec_init_regex(text@) {
                Some((names, re)) => r matches Some(p) && strings_view(p.0@) == names && p.1@ == re,
                None => r is None,
            },
    {
        let names = Self::get_uniq_bracketized(text);
        proof {
            reveal_strlit(".");
        }
        let escaped = replace_text(&chars_of(text), &chars_of("."), &chars_of("\\."));
        let ghost t0 = escaped@;
        let mut cur = string_from_chars(&escaped);
        let mut again: Vec<String> = Vec::new();
        let mut i: usize = 0;
        assert(strings_view(names@).take(0) =~= Seq::<Seq<char>>::empty());
        while i < names.len()
            invariant
                i <= names@.len(),
                t0 == replace_all_text(text@, "."@, "\\."@),
                strings_view(names@) == bracket_names(text@),
                with_groups(t0, strings_view(names@).take(i as int)) == Some((cur@, strings_view(again@))),
            decreases names.len() - i,
        {
            let ghost pre = strings_view(names@).take(i + 1);
            assert(pre.drop_last() =~= strings_view(names@).take(i as int));
            assert(pre.last() == names@[i as int]@);
            let pat = wrap_name("<", names[i].as_str(), ">");
            let rep = wrap_name("(?P<", names[i].as_str(), ">.*)");
            let next = match replacen(pat.as_str(), cur.as_str(), 1, rep.as_str()) {
                Some(t) => t,
                None => {
                    proof {
                        lemma_with_groups_fails(t0, strings_view(names@), i + 1);
                    }
                    return None;
                },
            };
            let next_chars = chars_of(next.as_str());
            let pat_chars = chars_of(pat.as_str());
            assert(next_chars@.subrange(0, next_chars@.len() as int) =~= next_chars@);
            if find_from(&next_chars, &pat_chars, 0).is_some() {
                let ghost before = again@;
                again.push(string_from_chars(&chars_of(names[i].as_str())));
                assert(strings_view(again@) =~= strings_view(before).push(names@[i as int]@));
            }
            cur = next;
            i = i + 1;
        }
        assert(strings_view(names@).take(names.len() as int) =~= strings_view(names@));
        let ghost t1 = cur@;
        let mut k: usize = 0;
        assert(strings_view(again@).take(0) =~= Seq::<Seq<char>>::empty());
        while k < again.len()
            invariant
                k <= again@.len(),
                t0 == replace_all_text(text@, "."@, "\\."@),
                strings_view(names@) == bracket_names(text@),
                with_groups(t0, strings_view(names@)) == Some((t1, strings_view(again@))),
                with_backrefs(t1, strings_view(again@).take(k as int)) == Some(cur@),
            decreases again.len() - k,
        {
            let ghost pre = strings_view(again@).take(k + 1);
            assert(pre.drop_last() =~= strings_view(again@).take(k as int));
            assert(pre.last() == again@[k as int]@);
            let pat = wrap_name("(?<!\\(\\?P)<", again[k].as_str(), ">");
            let rep = wrap_name("\\k<", again[k].as_str(), ">");
            cur = match replacen(pat.as_str(), cur.as_str(), 0, rep.as_str()) {
                Some(t) => t,
                None => {
                    proof {
                        lemma_with_backrefs_fails(t1, strings_view(again@), k + 1);
                    }
                    return None;
                },
            };
            k = k + 1;
        }
        assert(strings_view(again@).take(again.len() as int) =~= strings_view(again@));
        proof {
            reveal_strlit("*");
        }
        let re = replace_text(&chars_of(cur.as_str()), &chars_of("*"), &chars_of("[^/]+"));
        Some((names, string_from_chars(&re)))
    }
}

// --------------------------------------------------
// path patterns
// --------------------------------------------------
/// Why a path pattern could not be built.
#[derive(Debug, PartialEq, Eq, Structural)]
pub enum PathPatternError {
    /// A regex built from a placeholder name failed to replace.
    Unbuildable,
    /// The regex built for the pattern does not compile.
    Invalid,
}

/// The files a source pattern matched, each with what its placeholders
/// captured: `(path, [(name, text)])`.
pub struct PathPattern {
    pub captures: Vec<(String, Vec<(String, String)>)>,
}

/// Captures as plain values.
pub open spec fn captures_view(c: Seq<(String, Vec<(String, String)>)>) -> Seq<
    (Seq<char>, Seq<(Seq<char>, Seq<char>)>),
> {
    c.map_values(|x: (String, Vec<(String, String)>)| (x.0@, pairs_view(x.1@)))
}

/// `(name, text)` for each name whose group took part, in order.
pub open spec fn named_values(names: Seq<Seq<char>>, path: Seq<char>, spans: Seq<Option<(nat, nat)>>) -> Seq<
    (Seq<char>, Seq<char>),
>
    decreases names.len(),
{
    if names.len() == 0 {
        Seq::empty()
    } else {
        let r = named_values(names.drop_last(), path, spans);
        let k = names.len() - 1;
        if k < spans.len() && spans[k] is Some {
            r.push((names.last(), span_text(path, spans[k]->Some_0)))
        } else {
            r
        }
    }
}

/// What the placeholders capture of `path` under regex `re`; nothing when
/// it does not match.
pub open spec fn path_captures(names: Seq<Seq<char>>, re: Seq<char>, path: Seq<char>) -> Seq<
    (Seq<char>, Seq<char>),
> {
    match regex_named_spans(re, path, names) {
        Some(spans) => named_values(names, path, spans),
        None => Seq::empty(),
    }
}

/// The captures of one path.
fn captures_of(re: &str, path: &str, names: &Vec<String>) -> (r: Vec<(String, String)>)
    ensures
        pairs_view(r@) == path_captures(names_view(names@), re@, path@),
{
    let spans = match named_capture_spans(re, path, names) {
        Some(v) => v,
        None => {
            let r: Vec<(String, String)> = Vec::new();
            assert(pairs_view(r@) =~= Seq::<(Seq<char>, Seq<char>)>::empty());
            return r;
        },
    };
    let ghost nv = names_view(names@);
    let ghost sv = groups_view(spans);
    let cs = chars_of(path);
    let mut out: Vec<(String, String)> = Vec::new();
    let mut k: usize = 0;
    assert(nv.take(0) =~= Seq::<Seq<char>>::empty());
    while k < names.len()
        invariant
            k <= names@.len(),
            nv == names_view(names@),
            sv == groups_view(spans),
            spans@.len() == names@.len(),
            cs@ == path@,
            forall|q: int|
                0 <= q < spans@.len() && #[trigger] spans@[q] is Some ==> crate::text::byte_slice(
                    path@,
                    spans@[q]->Some_0.0 as int,
                    spans@[q]->Some_0.1 as int,
                ) is Some,
            pairs_view(out@) == named_values(nv.take(k as int), path@, sv),
        decreases names.len() - k,
    {
        let ghost pre = nv.take(k + 1);
        assert(pre.drop_last() =~= nv.take(k as int));
        assert(pre.last() == names@[k as int]@);
        match spans[k] {
            Some(span) => {
                assert(sv[k as int] == Some((span.0 as nat, span.1 as nat)));
                let text = span_chars(&cs, span);
                let ghost before = out@;
                out.push((string_from_chars(&chars_of(names[k].as_str())), string_from_chars(&text)));
                assert(pairs_view(out@) =~= pairs_view(before).push(
                    (names@[k as int]@, span_text(path@, (span.0 as nat, span.1 as nat))),
                ));
            },
            None => {
                assert(sv[k as int] is None);
            },
        }
        k = k + 1;
    }
    assert(nv.take(names.len() as int) =~= nv);
    out
}

/// The value the last pair named `name` holds (what a map collected from
/// the pairs holds for it).
pub open spec fn lookup(caps: Seq<(Seq<char>, Seq<char>)>, name: Seq<char>) -> Option<Seq<char>>
    decreases caps.len(),
{
    if caps.len() == 0 {
        None
    } else if caps.last().0 == name {
        Some(caps.last().1)
    } else {
        lookup(caps.drop_last(), name)
    }
}

/// `dst` with, for each name in turn that has a captured value, every
/// `<name>` replaced by that value.
pub open spec fn fill(dst: Seq<char>, names: Seq<Seq<char>>, caps: Seq<(Seq<char>, Seq<char>)>) -> Seq<
    char,
>
    decreases names.len(),
{
    if names.len() == 0 {
        dst
    } else {
        let d = fill(dst, names.drop_last(), caps);
        match lookup(caps, names.last()) {
            Some(v) => replace_all_text(d, bracketed(names.last()), v),
            None => d,
        }
    }
}

/// What `caps` holds for `name`.
fn lookup_exec(caps: &Vec<(String, String)>, name: &str) -> (r: Option<String>)
    ensures
        match lookup(pairs_view(caps@), name@) {
            Some(v) => r matches Some(s) && s@ == v,
            None => r is None,
        },
{
    let ghost cv = pairs_view(caps@);
    let n = chars_of(name);
    let mut i: usize = caps.len();
    assert(cv.take(caps.len() as int) =~= cv);
    while i > 0
        invariant
            i <= caps@.len(),
            cv == pairs_view(caps@),
            n@ == name@,
            lookup(cv, name@) == lookup(cv.take(i as int), name@),
        decreases i,
    {
        let ghost pre = cv.take(i as int);
        assert(pre.drop_last() =~= cv.take(i - 1));
        assert(pre.last() == (caps@[i - 1].0@, caps@[i - 1].1@));
        if same_chars(&chars_of(caps[i - 1].0.as_str()), &n) {
            return Some(string_from_chars(&chars_of(caps[i - 1].1.as_str())));
        }
        i = i - 1;
    }
    None
}

impl PathPattern {
    /// The pattern for source path `input` over `paths`, the files its glob
    /// ([`init_glob`]) matched: each path with what its placeholders
    /// captured. Fails where the regex cannot be built or does not compile.
    pub fn new(input: &str, paths: Vec<String>) -> (r: Result<PathPattern, PathPatternError>)
        ensures
            match spec_init_regex(input@) {
                None => r == Err::<PathPattern, PathPatternError>(PathPatternError::Unbuildable),
                Some((names, re)) => if !regex_compiles(re) {
                    r == Err::<PathPattern, PathPatternError>(PathPatternError::Invalid)
                } else {
                    r matches Ok(p) && captures_view(p.captures@) == strings_view(paths@).map_values(
                        |path: Seq<char>| (path, path_captures(names, re, path)),
                    )
                },
            },
    {
        let (names, re) = match Self::init_regex(input) {
            Some(found) => found,
            None => {
                return Err(PathPatternError::Unbuildable);
            },
        };
        if !compiles(re.as_str()) {
            return Err(PathPatternError::Invalid);
        }
        let ghost pv = strings_view(paths@);
        let mut captures: Vec<(String, Vec<(String, String)>)> = Vec::new();
        let mut i: usize = 0;
        while i < paths.len()
            invariant
                i <= paths@.len(),
                pv == strings_view(paths@),
                captures@.len() == i,
                forall|k: int|
                    0 <= k < i ==> #[trigger] captures_view(captures@)[k] == (
                        pv[k],
                        path_captures(names_view(names@), re@, pv[k]),
                    ),
            decreases paths.len() - i,
        {
            let caps = captures_of(re.as_str(), paths[i].as_str(), &names);
            let ghost before = captures@;
            captures.push((string_from_chars(&chars_of(paths[i].as_str())), caps));
            assert forall|k: int| 0 <= k < i + 1 implies #[trigger] captures_view(captures@)[k] == (
                pv[k],
                path_captures(names_view(names@), re@, pv[k]),
            ) by {
                if k < i {
                    assert(captures@[k] == before[k]);
                    assert(captures_view(before)[k] == (before[k].0@, pairs_view(before[k].1@)));
                    assert(captures_view(captures@)[k] == (captures@[k].0@, pairs_view(captures@[k].1@)));
                } else {
                    assert(captures_view(captures@)[k] == (captures@[k].0@, pairs_view(captures@[k].1@)));
                    assert(pv[k] == paths@[k]@);
                }
            }
            i = i + 1;
        }
        assert(names_view(names@) == strings_view(names@));
        assert(captures_view(captures@) =~= pv.map_values(
            |path: Seq<char>| (path, path_captures(names_view(names@), re@, path)),
        ));
        Ok(PathPattern { captures })
    }

    /// Maps each source to its destination: `destination` with each of its
    /// placeholders replaced by what the source captured for it.
    pub fn map(&self, destination: &str) -> (r: Vec<(String, String)>)
        ensures
            pairs_view(r@) == captures_view(self.captures@).map_values(
                |c: (Seq<char>, Seq<(Seq<char>, Seq<char>)>)|
                    (c.0, fill(destination@, bracket_names(destination@), c.1)),
            ),
    {
        let names = Self::get_uniq_bracketized(destination);
        let ghost nv = strings_view(names@);
        let ghost cv = captures_view(self.captures@);
        let mut out: Vec<(String, String)> = Vec::new();
        let mut i: usize = 0;
        while i < self.captures.len()
            invariant
                i <= self.captures@.len(),
                nv == strings_view(names@),
                nv == bracket_names(destination@),
                cv == captures_view(self.captures@),
                out@.len() == i,
                forall|k: int|
                    0 <= k < i ==> #[trigger] pairs_view(out@)[k] == (
                        cv[k].0,
                        fill(destination@, nv, cv[k].1),
                    ),
            decreases self.captures.len() - i,
        {
            let caps = &self.captures[i].1;
            let mut dst = chars_of(destination);
            let mut k: usize = 0;
            assert(nv.take(0) =~= Seq::<Seq<char>>::empty());
            while k < names.len()
                invariant
                    k <= names@.len(),
                    nv == strings_view(names@),
                    dst@ == fill(destination@, nv.take(k as int), pairs_view(caps@)),
                decreases names.len() - k,
            {
                let ghost pre = nv.take(k + 1);
                assert(pre.drop_last() =~= nv.take(k as int));
                assert(pre.last() == names@[k as int]@);
                match lookup_exec(caps, names[k].as_str()) {
                    Some(v) => {
                        let pat = wrap_name("<", names[k].as_str(), ">");
                        proof {
                            reveal_strlit("<");
                        }
                        dst = replace_text(&dst, &chars_of(pat.as_str()), &chars_of(v.as_str()));
                    },
                    None => {},
                }
                k = k + 1;
            }
            assert(nv.take(names.len() as int) =~= nv);
            let ghost before = out@;
            out.push(
                (string_from_chars(&chars_of(self.captures[i].0.as_str())), string_from_chars(&dst)),
            );
            assert forall|q: int| 0 <= q < i + 1 implies #[trigger] pairs_view(out@)[q] == (
                cv[q].0,
                fill(destination@, nv, cv[q].1),
            ) by {
                if q < i {
                    assert(out@[q] == before[q]);
                    assert(pairs_view(before)[q] == (before[q].0@, before[q].1@));
                    assert(pairs_view(out@)[q] == (out@[q].0@, out@[q].1@));
                } else {
                    assert(pairs_view(out@)[q] == (out@[q].0@, out@[q].1@));
                    assert(cv[q] == (self.captures@[q].0@, pairs_view(self.captures@[q].1@)));
                }
            }
            i = i + 1;
        }
        assert(pairs_view(out@) =~= cv.map_values(
            |c: (Seq<char>, Seq<(Seq<char>, Seq<char>)>)| (c.0, fill(destination@, nv, c.1)),
        ));
        out
    }
}


// --------------------------------------------------
// filling a destination written as text and placeholders
// --------------------------------------------------
/// A destination piece: plain text (`false`), or the name of a `<name>`
/// placeholder (`true`).
pub open spec fn piece_text(p: (bool, Seq<char>)) -> Seq<char> {
    if p.0 {
        bracketed(p.1)
    } else {
        p.1
    }
}

/// The text that pieces are written as, one after the other.
pub open spec fn render_pieces(pieces: Seq<(bool, Seq<char>)>) -> Seq<char>
    decreases pieces.len(),
{
    if pieces.len() == 0 {
        Seq::empty()
    } else {
        piece_text(pieces[0]) + render_pieces(pieces.drop_first())
    }
}

/// No `<` in `s`.
pub open spec fn no_open_angle(s: Seq<char>) -> bool {
    forall|i: int| 0 <= i < s.len() ==> s[i] != '<'
}

/// No `>` in `s`.
pub open spec fn no_close_angle(s: Seq<char>) -> bool {
    forall|i: int| 0 <= i < s.len() ==> s[i] != '>'
}

/// Pieces that read back unambiguously: plain text holds no `<`, and a
/// placeholder's name holds neither `<` nor `>`.
pub open spec fn pieces_plain(pieces: Seq<(bool, Seq<char>)>) -> bool {
    forall|i: int|
        0 <= i < pieces.len() ==> if (#[trigger] pieces[i]).0 {
            no_open_angle(pieces[i].1) && no_close_angle(pieces[i].1)
        } else {
            no_open_angle(pieces[i].1)
        }
}

/// The pieces with each placeholder whose name is among `names` and has a
/// captured value turned into that value as plain text.
pub open spec fn filled_pieces(
    pieces: Seq<(bool, Seq<char>)>,
    names: Seq<Seq<char>>,
    caps: Seq<(Seq<char>, Seq<char>)>,
) -> Seq<(bool, Seq<char>)> {
    pieces.map_values(
        |p: (bool, Seq<char>)|
            if p.0 && names.contains(p.1) && lookup(caps, p.1) is Some {
                (false, lookup(caps, p.1)->Some_0)
            } else {
                p
            },
    )
}

/// Replacing a placeholder passes over text without `<` unchanged.
proof fn lemma_replace_passes_plain(a: Seq<char>, b: Seq<char>, from: Seq<char>, to: Seq<char>)
    requires
        from.len() > 0,
        from[0] == '<',
        no_open_angle(a),
    ensures
        replace_all_text(a + b, from, to) == a + replace_all_text(b, from, to),
    decreases a.len(),
{
    if a.len() == 0 {
        assert(a + b =~= b);
    } else {
        let s = a + b;
        assert(s[0] == a[0]);
        if from.len() <= s.len() {
            assert(s.subrange(0, from.len() as int)[0] == s[0]);
        }
        assert(!starts_with(s, from));
        lemma_replace_passes_plain(a.drop_first(), b, from, to);
        assert(s.drop_first() =~= a.drop_first() + b);
        assert(seq![s[0]] + (a.drop_first() + replace_all_text(b, from, to)) =~= a + replace_all_text(
            b,
            from,
            to,
        ));
    }
}

/// Replacing `<k>` by a value without `<` turns exactly the placeholders
/// named `k` into that value.
proof fn lemma_replace_pieces(pieces: Seq<(bool, Seq<char>)>, k: Seq<char>, v: Seq<char>)
    requires
        pieces_plain(pieces),
        no_close_angle(k),
    ensures
        replace_all_text(render_pieces(pieces), bracketed(k), v) == render_pieces(
            pieces.map_values(
                |p: (bool, Seq<char>)|
                    if p.0 && p.1 == k {
                        (false, v)
                    } else {
                        p
                    },
            ),
        ),
    decreases pieces.len(),
{
    let f = |p: (bool, Seq<char>)|
        if p.0 && p.1 == k {
            (false, v)
        } else {
            p
        };
    let from = bracketed(k);
    reveal_strlit("<");
    reveal_strlit(">");
    assert(from[0] == '<');
    if pieces.len() > 0 {
        let rest = pieces.drop_first();
        assert(pieces_plain(rest)) by {
            assert forall|i: int| 0 <= i < rest.len() implies if (#[trigger] rest[i]).0 {
                no_open_angle(rest[i].1) && no_close_angle(rest[i].1)
            } else {
                no_open_angle(rest[i].1)
            } by {
                assert(rest[i] == pieces[i + 1]);
            }
        }
        lemma_replace_pieces(rest, k, v);
        assert(pieces.map_values(f).drop_first() =~= rest.map_values(f));
        let b = render_pieces(rest);
        let p = pieces[0];
        assert(pieces_plain(pieces) ==> (if p.0 {
            no_open_angle(p.1) && no_close_angle(p.1)
        } else {
            no_open_angle(p.1)
        }));
        if !p.0 {
            lemma_replace_passes_plain(p.1, b, from, v);
        } else if p.1 == k {
            let s = bracketed(k) + b;
            assert(s.subrange(0, from.len() as int) =~= from);
            assert(s.subrange(from.len() as int, s.len() as int) =~= b);
        } else {
            let n = p.1;
            let s = bracketed(n) + b;
            let tail = n + ">"@;
            assert(no_open_angle(tail));
            assert(!starts_with(s, from)) by {
                if starts_with(s, from) {
                    let pre = s.subrange(0, from.len() as int);
                    assert(pre == from);
                    if k.len() < n.len() {
                        assert(pre[k.len() as int + 1] == '>');
                        assert(s[k.len() as int + 1] == n[k.len() as int]);
                    } else if k.len() == n.len() {
                        assert forall|j: int| 0 <= j < k.len() implies k[j] == n[j] by {
                            assert(pre[j + 1] == k[j]);
                            assert(s[j + 1] == n[j]);
                        }
                        assert(k =~= n);
                    } else {
                        assert(pre[n.len() as int + 1] == k[n.len() as int]);
                        assert(s[n.len() as int + 1] == '>');
                    }
                }
            }
            assert(s.drop_first() =~= tail + b);
            lemma_replace_passes_plain(tail, b, from, v);
            assert(seq![s[0]] + (tail + replace_all_text(b, from, v)) =~= bracketed(n)
                + replace_all_text(b, from, v));
        }
    }
}

/// Law: a destination written as plain text and `<name>` placeholders is
/// filled in piece by piece: each placeholder whose name is among `names`
/// and has a captured value becomes that value, and everything else stays
/// as written. [`PathPattern::map`] fills each destination so, with the
/// names of [`bracket_names`].
///
/// It holds where plain text and captured values hold no `<` and names no
/// `<` or `>`, and not beyond: the names are replaced one after another,
/// so a stray `<` in the destination can join with a value to spell a
/// placeholder that was already replaced. For the destination
/// `<aQb> <a<aQb>b>`, whose `<...>` matches name `aQb` and `a<aQb`, with
/// `aQb` captured as `Q`: replacing `<aQb>` gives `Q <aQb>`, and the
/// `<aQb>` there is left as written although its name was captured.
pub proof fn law_fill_replaces_placeholders(
    pieces: Seq<(bool, Seq<char>)>,
    names: Seq<Seq<char>>,
    caps: Seq<(Seq<char>, Seq<char>)>,
)
    requires
        pieces_plain(pieces),
        forall|j: int| 0 <= j < names.len() ==> no_close_angle(#[trigger] names[j]),
        forall|j: int| 0 <= j < caps.len() ==> no_open_angle(#[trigger] caps[j].1),
    ensures
        fill(render_pieces(pieces), names, caps) == render_pieces(filled_pieces(pieces, names, caps)),
    decreases names.len(),
{
    if names.len() == 0 {
        assert(filled_pieces(pieces, names, caps) =~= pieces);
    } else {
        let init = names.drop_last();
        let k = names.last();
        law_fill_replaces_placeholders(pieces, init, caps);
        let mid = filled_pieces(pieces, init, caps);
        assert(pieces_plain(mid)) by {
            assert forall|i: int| 0 <= i < mid.len() implies if (#[trigger] mid[i]).0 {
                no_open_angle(mid[i].1) && no_close_angle(mid[i].1)
            } else {
                no_open_angle(mid[i].1)
            } by {
                let p = pieces[i];
                if p.0 && init.contains(p.1) && lookup(caps, p.1) is Some {
                    lemma_lookup_found(caps, p.1);
                }
            }
        }
        match lookup(caps, k) {
            Some(v) => {
                lemma_lookup_found(caps, k);
                lemma_replace_pieces(mid, k, v);
                let f = |p: (bool, Seq<char>)|
                    if p.0 && p.1 == k {
                        (false, v)
                    } else {
                        p
                    };
                assert(mid.map_values(f) =~= filled_pieces(pieces, names, caps)) by {
                    assert forall|i: int| 0 <= i < pieces.len() implies mid.map_values(f)[i]
                        == filled_pieces(pieces, names, caps)[i] by {
                        let n = pieces[i].1;
                        assert(names.contains(n) <==> init.contains(n) || n == k) by {
                            if names.contains(n) {
                                let j = names.index_of(n);
                                if j < names.len() - 1 {
                                    assert(init[j] == n);
                                }
                            }
                            if init.contains(n) {
                                let j = init.index_of(n);
                                assert(names[j] == n);
                            }
                            if n == k {
                                assert(names[names.len() - 1] == n);
                            }
                        }
                    }
                }
            },
            None => {
                assert(mid =~= filled_pieces(pieces, names, caps)) by {
                    assert forall|i: int| 0 <= i < pieces.len() implies mid[i] == filled_pieces(
                        pieces,
                        names,
                        caps,
                    )[i] by {
                        let n = pieces[i].1;
                        assert(names.contains(n) && n != k ==> init.contains(n)) by {
                            if names.contains(n) && n != k {
                                let j = names.index_of(n);
                                assert(j < names.len() - 1);
                                assert(init[j] == n);
                            }
                        }
                        if init.contains(n) {
                            let j = init.index_of(n);
                            assert(names[j] == n);
                        }
                    }
                }
            },
        }
    }
}

/// A value found for a name is one of the captured values.
proof fn lemma_lookup_found(caps: Seq<(Seq<char>, Seq<char>)>, name: Seq<char>)
    requires
        lookup(caps, name) is Some,
    ensures
        exists|j: int| 0 <= j < caps.len() && #[trigger] caps[j].1 == lookup(caps, name)->Some_0,
    decreases caps.len(),
{
    if caps.last().0 == name {
        assert(caps[caps.len() - 1].1 == lookup(caps, name)->Some_0);
    } else {
        lemma_lookup_found(caps.drop_last(), name);
        let j = choose|j: int|
            0 <= j < caps.drop_last().len() && #[trigger] caps.drop_last()[j].1 == lookup(
                caps.drop_last(),
                name,
            )->Some_0;
        assert(caps[j] == caps.drop_last()[j]);
    }
}

} // verus!
