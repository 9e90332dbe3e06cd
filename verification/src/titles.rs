//! Titles derived from file names, and titles shortened for the sidebar.
use vstd::prelude::*;

use crate::csv::is_whitespace_exec;
use crate::text::{chars_of, is_whitespace, push_str, string_from_chars, sub_chars};

verus! {

/// What `char::to_uppercase` yields for `c`, as text.
pub uninterp spec fn uppercase_char(c: char) -> Seq<char>;

/// `c` in upper case (`char::to_uppercase`, Unicode rules; may be several chars).
#[verifier::external_body]
fn to_uppercase(c: char) -> (r: String)
    ensures
        r@ == uppercase_char(c),
{
    c.to_uppercase().to_string()
}

/// The maximal runs of non-whitespace chars of `s`, in order
/// (what `str::split_whitespace` yields).
pub open spec fn words(s: Seq<char>) -> Seq<Seq<char>>
    decreases s.len(),
{
    if s.len() == 0 {
        Seq::empty()
    } else {
        let w = words(s.drop_last());
        let c = s.last();
        if is_whitespace(c) {
            w
        } else if s.len() >= 2 && !is_whitespace(s[s.len() - 2]) {
            w.update(w.len() - 1, w.last().push(c))
        } else {
            w.push(seq![c])
        }
    }
}

/// `w` with its first char in upper case.
pub open spec fn capitalized(w: Seq<char>) -> Seq<char> {
    if w.len() == 0 {
        w
    } else {
        uppercase_char(w[0]) + w.drop_first()
    }
}

/// The pieces joined with single spaces.
pub open spec fn join_spaced(ws: Seq<Seq<char>>) -> Seq<char>
    decreases ws.len(),
{
    if ws.len() == 0 {
        Seq::empty()
    } else if ws.len() == 1 {
        ws[0]
    } else {
        join_spaced(ws.drop_last()) + " "@ + ws.last()
    }
}

/// A title from a slug: `-` read as a space, each word capitalized, words
/// joined with single spaces (`hello-world` gives `Hello World`).
pub open spec fn slug_title(slug: Seq<char>) -> Seq<char> {
    join_spaced(
        words(slug.map_values(|c: char| if c == '-' { ' ' } else { c })).map_values(
            |w: Seq<char>| capitalized(w),
        ),
    )
}

/// A runs of non-whitespace ends where the last char is not whitespace.
proof fn lemma_words_nonempty(s: Seq<char>)
    requires
        s.len() > 0,
        !is_whitespace(s.last()),
    ensures
        words(s).len() > 0,
    decreases s.len(),
{
    if s.len() >= 2 && !is_whitespace(s[s.len() - 2]) {
        assert(s.drop_last().last() == s[s.len() - 2]);
        lemma_words_nonempty(s.drop_last());
    }
}

/// The title a post gets from its slug when its markdown has no `# ` heading.
pub fn title_from_slug(slug: &str) -> (r: String)
    ensures
        r@ == slug_title(slug@),
{
    let raw = chars_of(slug);
    let mut s: Vec<char> = Vec::new();
    let mut i: usize = 0;
    while i < raw.len()
        invariant
            i <= raw.len(),
            s@ == raw@.subrange(0, i as int).map_values(|c: char| if c == '-' { ' ' } else { c }),
        decreases raw.len() - i,
    {
        s.push(if raw[i] == '-' { ' ' } else { raw[i] });
        i = i + 1;
        assert(s@ =~= raw@.subrange(0, i as int).map_values(|c: char| if c == '-' { ' ' } else { c }));
    }
    assert(raw@.subrange(0, raw.len() as int) =~= raw@);
    // collect the words
    let mut ws: Vec<Vec<char>> = Vec::new();
    let mut j: usize = 0;
    while j < s.len()
        invariant
            j <= s.len(),
            ws@.len() == words(s@.subrange(0, j as int)).len(),
            forall|k: int| 0 <= k < ws@.len() ==> #[trigger] ws@[k]@ == words(s@.subrange(0, j as int))[k],
        decreases s.len() - j,
    {
        let ghost pre = s@.subrange(0, j + 1);
        assert(pre.drop_last() =~= s@.subrange(0, j as int));
        assert(pre.last() == s@[j as int]);
        let c = s[j];
        if !is_whitespace_exec(c) {
            if j >= 1 && !is_whitespace_exec(s[j - 1]) {
                assert(pre[pre.len() - 2] == s@[j - 1]);
                proof {
                    lemma_words_nonempty(s@.subrange(0, j as int));
                }
                let last = ws.len() - 1;
                let mut w = ws.remove(last);
                w.push(c);
                ws.push(w);
            } else {
                ws.push(vec![c]);
            }
        }
        j = j + 1;
    }
    assert(s@.subrange(0, s.len() as int) =~= s@);
    // capitalize and join
    let ghost wsv = words(s@);
    let mut out: Vec<char> = Vec::new();
    let mut k: usize = 0;
    while k < ws.len()
        invariant
            k <= ws.len(),
            ws@.len() == wsv.len(),
            forall|q: int| 0 <= q < ws@.len() ==> #[trigger] ws@[q]@ == wsv[q],
            out@ == join_spaced(wsv.take(k as int).map_values(|w: Seq<char>| capitalized(w))),
        decreases ws.len() - k,
    {
        let ghost caps = wsv.take(k + 1).map_values(|w: Seq<char>| capitalized(w));
        assert(caps.drop_last() =~= wsv.take(k as int).map_values(|w: Seq<char>| capitalized(w)));
        if k > 0 {
            push_str(&mut out, " ");
        }
        let w = &ws[k];
        if w.len() > 0 {
            let up = to_uppercase(w[0]);
            push_str(&mut out, up.as_str());
            let mut rest = sub_chars(w, 1, w.len());
            assert(rest@ =~= w@.drop_first());
            out.append(&mut rest);
        }
        k = k + 1;
        assert(out@ =~= join_spaced(wsv.take(k as int).map_values(|w: Seq<char>| capitalized(w))));
    }
    assert(wsv.take(ws.len() as int) =~= wsv);
    string_from_chars(&out)
}

/// The visible width, in chars, that sidebar titles are cut to.
pub const SIDEBAR_TITLE_MAXLEN: usize = 48;

/// A title cut to fit the sidebar: unchanged when it has at most 48 chars,
/// else its first 45 chars followed by `...`.
pub open spec fn sidebar_cut(s: Seq<char>) -> Seq<char> {
    if s.len() <= 48 {
        s
    } else {
        s.take(45) + "..."@
    }
}

/// Truncating titles to a fixed visible width suitable for the sidebar.
pub trait SidebarTitle {
    /// The title truncated to fit the sidebar, counting chars (not bytes).
    fn sidebar_title(&self) -> String;
}

impl SidebarTitle for str {
    /// See [`sidebar_cut`].
    fn sidebar_title(&self) -> (r: String)
        ensures
            r@ == sidebar_cut(self@),
    {
        let cs = chars_of(self);
        if cs.len() <= SIDEBAR_TITLE_MAXLEN {
            return string_from_chars(&cs);
        }
        let keep = SIDEBAR_TITLE_MAXLEN - 3;
        let mut out = sub_chars(&cs, 0, keep);
        push_str(&mut out, "...");
        assert(out@ =~= sidebar_cut(self@));
        string_from_chars(&out)
    }
}

/// Law: a sidebar title has at most 48 chars, and a title that fits is
/// kept as it is.
pub proof fn law_sidebar_title_fits(s: Seq<char>)
    ensures
        sidebar_cut(s).len() <= 48,
        s.len() <= 48 ==> sidebar_cut(s) == s,
        s.len() > 48 ==> sidebar_cut(s).take(45) == s.take(45),
{
    reveal_strlit("...");
    if s.len() > 48 {
        assert(sidebar_cut(s).take(45) =~= s.take(45));
    }
}

} // verus!
