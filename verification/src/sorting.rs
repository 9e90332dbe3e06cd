//! Stable sorting of listings (newest first, then by name), and the
//! lexicographic order of strings that the listings sort by.
use vstd::prelude::*;

use crate::text::{chars_of, lex_lt};

verus! {

// --------------------------------------------------
// lexicographic order
// --------------------------------------------------
/// `lex_lt` is asymmetric and irreflexive.
pub proof fn lemma_lex_asym(a: Seq<char>, b: Seq<char>)
    ensures
        lex_lt(a, b) ==> !lex_lt(b, a),
        !lex_lt(a, a),
    decreases a.len(),
{
    if a.len() > 0 && b.len() > 0 && a[0] == b[0] {
        lemma_lex_asym(a.drop_first(), b.drop_first());
    }
    if a.len() > 0 {
        lemma_lex_asym(a.drop_first(), a.drop_first());
    }
}

/// `lex_lt` is transitive.
pub proof fn lemma_lex_trans(a: Seq<char>, b: Seq<char>, c: Seq<char>)
    requires
        lex_lt(a, b),
        lex_lt(b, c),
    ensures
        lex_lt(a, c),
    decreases a.len(),
{
    if a.len() > 0 && b.len() > 0 && c.len() > 0 && a[0] == b[0] && b[0] == c[0] {
        lemma_lex_trans(a.drop_first(), b.drop_first(), c.drop_first());
    }
}

/// Any two strings are equal or ordered one way.
pub proof fn lemma_lex_total(a: Seq<char>, b: Seq<char>)
    ensures
        lex_lt(a, b) || lex_lt(b, a) || a == b,
    decreases a.len(),
{
    if a.len() > 0 && b.len() > 0 && a[0] == b[0] {
        lemma_lex_total(a.drop_first(), b.drop_first());
        if a.drop_first() == b.drop_first() {
            assert(a =~= seq![a[0]] + a.drop_first());
            assert(b =~= seq![b[0]] + b.drop_first());
        }
    } else if a.len() > 0 && b.len() > 0 {
        vstd::utf8::char_u32_cast(a[0], a[0] as u32);
        vstd::utf8::char_u32_cast(b[0], b[0] as u32);
    } else if a.len() == 0 && b.len() == 0 {
        assert(a =~= b);
    }
}

/// Whether `a` sorts before `b` (`String`'s `<`).
pub fn lex_less(a: &str, b: &str) -> (r: bool)
    ensures
        r == lex_lt(a@, b@),
{
    let x = chars_of(a);
    let y = chars_of(b);
    let mut i: usize = 0;
    assert(a@.skip(0) =~= a@ && b@.skip(0) =~= b@);
    while i < x.len() && i < y.len()
        invariant
            i <= x@.len(),
            i <= y@.len(),
            x@ == a@,
            y@ == b@,
            x@.take(i as int) == y@.take(i as int),
            lex_lt(a@, b@) == lex_lt(a@.skip(i as int), b@.skip(i as int)),
        decreases x.len() - i,
    {
        if x[i] != y[i] {
            assert(a@.skip(i as int)[0] == x@[i as int]);
            assert(b@.skip(i as int)[0] == y@[i as int]);
            return (x[i] as u32) < (y[i] as u32);
        }
        assert(a@.skip(i as int).drop_first() =~= a@.skip(i + 1));
        assert(b@.skip(i as int).drop_first() =~= b@.skip(i + 1));
        assert(x@.take(i + 1) =~= x@.take(i as int).push(x@[i as int]));
        assert(y@.take(i + 1) =~= y@.take(i as int).push(y@[i as int]));
        i = i + 1;
    }
    i == x.len() && i < y.len()
}

// --------------------------------------------------
// stable sorting
// --------------------------------------------------
/// An order in which a listing shows its entries: `a.goes_before(b)` when
/// `a` must be listed before `b`. Entries neither of which goes before the
/// other keep their relative order.
pub trait ListOrder: Sized {
    /// Whether `self` must be listed before `other`.
    spec fn goes_before(&self, other: &Self) -> bool;

    /// The order is asymmetric, and "does not go before" is transitive
    /// (a strict weak order).
    proof fn lemma_list_order(a: &Self, b: &Self, c: &Self)
        ensures
            a.goes_before(b) ==> !b.goes_before(a),
            (!a.goes_before(b) && !b.goes_before(c)) ==> !a.goes_before(c),
    ;

    /// Whether `self` must be listed before `other`.
    fn precedes(&self, other: &Self) -> (r: bool)
        ensures
            r == self.goes_before(other),
    ;
}

/// No entry of `s` goes before an entry listed earlier.
pub open spec fn listed_in_order<T: ListOrder>(s: Seq<T>) -> bool {
    forall|i: int, j: int| #![trigger s[i], s[j]] 0 <= i < j < s.len() ==> !s[j].goes_before(&s[i])
}

/// `idx` lists each position below `n` exactly once.
pub open spec fn is_permutation(idx: Seq<int>, n: nat) -> bool {
    &&& idx.len() == n
    &&& forall|k: int| 0 <= k < idx.len() ==> 0 <= #[trigger] idx[k] < n
    &&& forall|k1: int, k2: int|
        0 <= k1 < k2 < idx.len() ==> #[trigger] idx[k1] != #[trigger] idx[k2]
}

/// `r` is `items` rearranged by `idx`, entries neither of which goes before
/// the other keeping their relative order.
pub open spec fn stable_arrangement<T: ListOrder>(r: Seq<T>, items: Seq<T>, idx: Seq<int>) -> bool {
    &&& is_permutation(idx, items.len())
    &&& r.len() == items.len()
    &&& forall|k: int| 0 <= k < r.len() ==> #[trigger] r[k] == items[idx[k]]
    &&& forall|i: int, j: int|
        #![trigger r[i], r[j]]
        0 <= i < j < r.len() && !r[i].goes_before(&r[j]) ==> idx[i] < idx[j]
}

/// The entries sorted by their list order, stably: the result lists every
/// entry once, none before one it goes after, and entries that tie keep
/// the order they came in.
pub fn stable_sort<T: ListOrder>(items: Vec<T>) -> (r: Vec<T>)
    ensures
        listed_in_order(r@),
        exists|idx: Seq<int>| #[trigger] stable_arrangement(r@, items@, idx),
{
    let ghost orig = items@;
    let n = items.len();
    let mut rest = items;
    let mut pending: Vec<T> = Vec::new();
    // reverse, so that popping yields the entries in their original order
    while rest.len() > 0
        invariant
            orig.len() == n,
            rest@.len() + pending@.len() == n,
            forall|k: int| 0 <= k < rest@.len() ==> #[trigger] rest@[k] == orig[k],
            forall|k: int| 0 <= k < pending@.len() ==> #[trigger] pending@[k] == orig[n - 1 - k],
        decreases rest.len(),
    {
        let x = rest.pop().unwrap();
        pending.push(x);
    }
    let mut out: Vec<T> = Vec::new();
    let ghost mut idx: Seq<int> = Seq::empty();
    let mut i: usize = 0;
    while pending.len() > 0
        invariant
            orig.len() == n,
            i + pending@.len() == n,
            forall|k: int| 0 <= k < pending@.len() ==> #[trigger] pending@[k] == orig[n - 1 - k],
            listed_in_order(out@),
            out@.len() == i,
            is_permutation(idx, i as nat),
            forall|k: int| 0 <= k < out@.len() ==> #[trigger] out@[k] == orig[idx[k]],
            forall|a: int, b: int|
                #![trigger out@[a], out@[b]]
                0 <= a < b < out@.len() && !out@[a].goes_before(&out@[b]) ==> idx[a] < idx[b],
        decreases pending.len(),
    {
        let x = pending.pop().unwrap();
        assert(x == orig[i as int]);
        let mut j: usize = out.len();
        while j > 0 && x.precedes(&out[j - 1])
            invariant
                j <= out@.len(),
                forall|k: int| j <= k < out@.len() ==> x.goes_before(&#[trigger] out@[k]),
            decreases j,
        {
            j = j - 1;
        }
        proof {
            // x goes before no entry left of j
            assert forall|k: int| 0 <= k < j implies !x.goes_before(&#[trigger] out@[k]) by {
                T::lemma_list_order(&out@[k], &out@[j - 1], &x);
                T::lemma_list_order(&x, &out@[j - 1], &out@[k]);
            }
        }
        let ghost before = out@;
        let ghost before_idx = idx;
        out.insert(j, x);
        proof {
            idx = before_idx.insert(j as int, i as int);
            assert forall|a: int, b: int|
                #![trigger out@[a], out@[b]]
                0 <= a < b < out@.len() implies !out@[b].goes_before(&out@[a]) by {
                if b == j {
                    assert(out@[a] == before[a]);
                    T::lemma_list_order(&x, &before[a], &x);
                } else if a == j {
                    assert(out@[b] == before[b - 1]);
                    T::lemma_list_order(&x, &before[b - 1], &x);
                } else if a < j && b > j {
                    assert(out@[a] == before[a]);
                    assert(out@[b] == before[b - 1]);
                } else if b < j {
                    assert(out@[a] == before[a] && out@[b] == before[b]);
                } else {
                    assert(out@[a] == before[a - 1] && out@[b] == before[b - 1]);
                }
            }
            assert forall|k: int| 0 <= k < out@.len() implies #[trigger] out@[k] == orig[idx[k]] by {
                if k < j {
                    assert(out@[k] == before[k]);
                } else if k > j {
                    assert(out@[k] == before[k - 1]);
                }
            }
            assert forall|a: int, b: int|
                #![trigger out@[a], out@[b]]
                0 <= a < b < out@.len() && !out@[a].goes_before(&out@[b]) implies idx[a] < idx[b] by {
                if b == j {
                    assert(before_idx[a] < i);
                } else if a == j {
                    assert(out@[b] == before[b - 1]);
                    assert(x.goes_before(&before[b - 1]));
                } else if a < j && b > j {
                    assert(out@[a] == before[a] && out@[b] == before[b - 1]);
                } else if b < j {
                    assert(out@[a] == before[a] && out@[b] == before[b]);
                } else {
                    assert(out@[a] == before[a - 1] && out@[b] == before[b - 1]);
                }
            }
            assert forall|k: int| 0 <= k < idx.len() implies 0 <= #[trigger] idx[k] < i + 1 by {
                if k < j {
                    assert(idx[k] == before_idx[k]);
                } else if k > j {
                    assert(idx[k] == before_idx[k - 1]);
                }
            }
            assert forall|k1: int, k2: int| 0 <= k1 < k2 < idx.len() implies #[trigger] idx[k1]
                != #[trigger] idx[k2] by {
                if k1 != j && k2 != j {
                    let p1 = if k1 < j { k1 } else { k1 - 1 };
                    let p2 = if k2 < j { k2 } else { k2 - 1 };
                    assert(idx[k1] == before_idx[p1] && idx[k2] == before_idx[p2]);
                } else if k1 == j {
                    assert(idx[k2] == before_idx[k2 - 1]);
                } else {
                    assert(idx[k1] == before_idx[k1]);
                }
            }
        }
        i = i + 1;
    }
    assert(stable_arrangement(out@, orig, idx));
    out
}

/// Newest key first, then by name: `(ka, na)` goes before `(kb, nb)` when
/// its key sorts after, or the keys are equal and its name sorts before.
pub open spec fn newest_then_name(ka: Seq<char>, na: Seq<char>, kb: Seq<char>, nb: Seq<char>) -> bool {
    lex_lt(kb, ka) || (ka == kb && lex_lt(na, nb))
}

/// `newest_then_name` is asymmetric, and "does not go before" is
/// transitive.
pub proof fn lemma_newest_then_name(
    ka: Seq<char>,
    na: Seq<char>,
    kb: Seq<char>,
    nb: Seq<char>,
    kc: Seq<char>,
    nc: Seq<char>,
)
    ensures
        newest_then_name(ka, na, kb, nb) ==> !newest_then_name(kb, nb, ka, na),
        (!newest_then_name(ka, na, kb, nb) && !newest_then_name(kb, nb, kc, nc)) ==> !newest_then_name(
            ka,
            na,
            kc,
            nc,
        ),
{
    lemma_lex_asym(ka, kb);
    lemma_lex_asym(kb, kc);
    lemma_lex_asym(ka, kc);
    lemma_lex_asym(na, nb);
    lemma_lex_asym(nb, nc);
    lemma_lex_asym(na, nc);
    lemma_lex_total(ka, kb);
    lemma_lex_total(kb, kc);
    lemma_lex_total(na, nb);
    lemma_lex_total(nb, nc);
    lemma_lex_trans_all(ka, kb, kc);
    lemma_lex_trans_all(na, nb, nc);
}

/// `lex_lt` chains through any order of three strings.
proof fn lemma_lex_trans_all(a: Seq<char>, b: Seq<char>, c: Seq<char>)
    ensures
        lex_lt(a, b) && lex_lt(b, c) ==> lex_lt(a, c),
        lex_lt(a, c) && lex_lt(c, b) ==> lex_lt(a, b),
        lex_lt(b, a) && lex_lt(a, c) ==> lex_lt(b, c),
        lex_lt(b, c) && lex_lt(c, a) ==> lex_lt(b, a),
        lex_lt(c, a) && lex_lt(a, b) ==> lex_lt(c, b),
        lex_lt(c, b) && lex_lt(b, a) ==> lex_lt(c, a),
{
    if lex_lt(a, b) && lex_lt(b, c) {
        lemma_lex_trans(a, b, c);
    }
    if lex_lt(a, c) && lex_lt(c, b) {
        lemma_lex_trans(a, c, b);
    }
    if lex_lt(b, a) && lex_lt(a, c) {
        lemma_lex_trans(b, a, c);
    }
    if lex_lt(b, c) && lex_lt(c, a) {
        lemma_lex_trans(b, c, a);
    }
    if lex_lt(c, a) && lex_lt(a, b) {
        lemma_lex_trans(c, a, b);
    }
    if lex_lt(c, b) && lex_lt(b, a) {
        lemma_lex_trans(c, b, a);
    }
}

/// A strictly increasing arrangement of the positions below `n` is the
/// identity.
proof fn lemma_increasing_permutation(idx: Seq<int>, n: nat)
    requires
        is_permutation(idx, n),
        forall|a: int, b: int| 0 <= a < b < idx.len() ==> #[trigger] idx[a] < #[trigger] idx[b],
    ensures
        forall|k: int| 0 <= k < idx.len() ==> #[trigger] idx[k] == k,
{
    assert forall|k: int| 0 <= k < idx.len() implies #[trigger] idx[k] >= k by {
        lemma_increasing_lower(idx, k);
    }
    assert forall|k: int| 0 <= k < idx.len() implies #[trigger] idx[k] <= k by {
        lemma_increasing_upper(idx, n, k);
    }
}

proof fn lemma_increasing_lower(idx: Seq<int>, k: int)
    requires
        0 <= k < idx.len(),
        forall|a: int| 0 <= a < idx.len() ==> 0 <= #[trigger] idx[a],
        forall|a: int, b: int| 0 <= a < b < idx.len() ==> #[trigger] idx[a] < #[trigger] idx[b],
    ensures
        idx[k] >= k,
    decreases k,
{
    if k > 0 {
        lemma_increasing_lower(idx, k - 1);
        assert(idx[k - 1] < idx[k]);
    }
}

proof fn lemma_increasing_upper(idx: Seq<int>, n: nat, k: int)
    requires
        0 <= k < idx.len(),
        idx.len() == n,
        forall|a: int| 0 <= a < idx.len() ==> #[trigger] idx[a] < n,
        forall|a: int, b: int| 0 <= a < b < idx.len() ==> #[trigger] idx[a] < #[trigger] idx[b],
    ensures
        idx[k] <= k,
    decreases idx.len() - k,
{
    if k < idx.len() - 1 {
        lemma_increasing_upper(idx, n, k + 1);
        assert(idx[k] < idx[k + 1]);
    }
}

/// Law: sorting entries that are already in list order changes nothing.
pub proof fn law_sorting_ordered_keeps_it<T: ListOrder>(items: Seq<T>, r: Seq<T>, idx: Seq<int>)
    requires
        listed_in_order(items),
        stable_arrangement(r, items, idx),
    ensures
        r == items,
{
    assert forall|a: int, b: int| 0 <= a < b < idx.len() implies #[trigger] idx[a] < #[trigger] idx[b] by {
        if idx[a] > idx[b] {
            assert(!items[idx[a]].goes_before(&items[idx[b]]));
            assert(r[a] == items[idx[a]] && r[b] == items[idx[b]]);
        }
    }
    lemma_increasing_permutation(idx, items.len());
    assert(r =~= items);
}

} // verus!
