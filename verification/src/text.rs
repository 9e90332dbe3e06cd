//! Character-level text helpers shared by the parsers and renderers:
//! moving between `str`/`String` and `Vec<char>`, decimal rendering,
//! and the digit grammar that the date formats are built from.
use vstd::prelude::*;
use vstd::std_specs::iter::IteratorSpec;

verus! {

/// Whether `c` is an ASCII decimal digit.
pub open spec fn is_digit(c: char) -> bool {
    '0' <= c && c <= '9'
}

/// Whether every character of `s` is an ASCII decimal digit.
pub open spec fn all_digits(s: Seq<char>) -> bool {
    forall|i: int| 0 <= i < s.len() ==> #[trigger] is_digit(s[i])
}

/// The numeric value of one decimal digit character.
pub open spec fn digit_value(c: char) -> nat {
    ((c as int) - ('0' as int)) as nat
}

/// The character that writes the decimal digit `d` (`0 <= d < 10`).
pub open spec fn digit_char(d: nat) -> char {
    ((d as int) + ('0' as int)) as char
}

/// The value of a string of decimal digits, read most significant first.
pub open spec fn digits_value(s: Seq<char>) -> nat
    decreases s.len(),
{
    if s.len() == 0 {
        0
    } else {
        digits_value(s.drop_last()) * 10 + digit_value(s.last())
    }
}

/// `n` written in decimal, without leading zeros.
pub open spec fn decimal(n: nat) -> Seq<char>
    decreases n,
{
    if n < 10 {
        seq![digit_char(n)]
    } else {
        decimal(n / 10).push(digit_char(n % 10))
    }
}

/// `n` in decimal, left-padded with `'0'` to at least `width` characters
/// (what `{:0width$}` prints).
pub open spec fn zero_padded(n: nat, width: nat) -> Seq<char> {
    let d = decimal(n);
    if d.len() >= width {
        d
    } else {
        Seq::new((width - d.len()) as nat, |i: int| '0') + d
    }
}

/// What `FromStr` for an unsigned integer accepts: an optional leading
/// `+` followed by at least one ASCII digit. The value is then the digits
/// read in decimal.
pub open spec fn std_unsigned_syntax(s: Seq<char>) -> bool {
    if s.len() > 0 && s[0] == '+' {
        s.len() > 1 && all_digits(s.drop_first())
    } else {
        s.len() > 0 && all_digits(s)
    }
}

/// The value that `FromStr` for an unsigned integer gives for `s`, when
/// `std_unsigned_syntax(s)` holds and the value fits the target type.
pub open spec fn std_unsigned_value(s: Seq<char>) -> nat {
    if s.len() > 0 && s[0] == '+' {
        digits_value(s.drop_first())
    } else {
        digits_value(s)
    }
}

/// The number of bytes of the UTF-8 encoding of `s` (what `str::len` gives).
pub open spec fn byte_len(s: Seq<char>) -> nat {
    vstd::utf8::encode_utf8(s).len()
}

/// Characters that `char::is_whitespace` accepts (Unicode `White_Space`).
pub open spec fn is_whitespace(c: char) -> bool {
    ||| '\u{9}' <= c <= '\u{d}'
    ||| c == ' '
    ||| c == '\u{85}'
    ||| c == '\u{a0}'
    ||| c == '\u{1680}'
    ||| '\u{2000}' <= c <= '\u{200a}'
    ||| c == '\u{2028}'
    ||| c == '\u{2029}'
    ||| c == '\u{202f}'
    ||| c == '\u{205f}'
    ||| c == '\u{3000}'
}

/// The characters of `s`, in order.
pub fn chars_of(s: &str) -> (v: Vec<char>)
    ensures
        v@ == s@,
{
    let mut v: Vec<char> = Vec::new();
    let mut it = s.chars();
    proof {
        broadcast use vstd::string::group_string_axioms;
    }
    loop
        invariant
            v@ + it.remaining() == s@,
            it.obeys_prophetic_iter_laws(),
            it.decrease() is Some,
        decreases it.decrease()->0,
    {
        proof {
            broadcast use vstd::string::group_string_axioms;
        }
        match it.next() {
            Some(c) => {
                v.push(c);
            },
            None => {
                assert(v@ + it.remaining() == v@);
                return v;
            },
        }
    }
}

/// Builds a `String` holding exactly the characters `v`, in order
/// (`String::from_iter` over the chars; std documents that collecting
/// chars concatenates them).
#[verifier::external_body]
pub(crate) fn string_from_chars(v: &Vec<char>) -> (s: String)
    ensures
        s@ == v@,
{
    String::from_iter(v)
}

/// Appends the characters of `s` to `out`.
pub fn push_str(out: &mut Vec<char>, s: &str)
    ensures
        final(out)@ == old(out)@ + s@,
{
    let mut cs = chars_of(s);
    out.append(&mut cs);
}

/// `a` followed by `b`.
pub fn joined_text(a: &str, b: &str) -> (r: String)
    ensures
        r@ == a@ + b@,
{
    let mut out = chars_of(a);
    push_str(&mut out, b);
    string_from_chars(&out)
}

/// Appends `n` in decimal to `out`.
pub fn push_decimal(out: &mut Vec<char>, n: u64)
    ensures
        final(out)@ == old(out)@ + decimal(n as nat),
    decreases n,
{
    if n >= 10 {
        push_decimal(out, n / 10);
    }
    let d: u64 = n % 10;
    let c: char = match d {
        0 => '0',
        1 => '1',
        2 => '2',
        3 => '3',
        4 => '4',
        5 => '5',
        6 => '6',
        7 => '7',
        8 => '8',
        _ => '9',
    };
    assert(c == digit_char(d as nat));
    out.push(c);
    proof {
        if n >= 10 {
            assert(decimal(n as nat) == decimal((n / 10) as nat).push(digit_char((n % 10) as nat)));
        }
    }
}

/// The number of characters in `n` written in decimal.
pub fn decimal_len(n: u64) -> (len: usize)
    ensures
        len == decimal(n as nat).len(),
    decreases n,
{
    proof {
        lemma_decimal_len_bound(n as nat);
    }
    if n < 10 {
        1
    } else {
        decimal_len(n / 10) + 1
    }
}

/// Appends `n` in decimal to `out`, left-padded with zeros to `width`.
pub fn push_zero_padded(out: &mut Vec<char>, n: u64, width: usize)
    ensures
        final(out)@ == old(out)@ + zero_padded(n as nat, width as nat),
{
    let len = decimal_len(n);
    let ghost start = out@;
    if len < width {
        let mut k: usize = len;
        while k < width
            invariant
                len <= k <= width,
                out@ == start + Seq::new((k - len) as nat, |i: int| '0'),
            decreases width - k,
        {
            out.push('0');
            k = k + 1;
            assert(out@ =~= start + Seq::new((k - len) as nat, |i: int| '0'));
        }
    }
    push_decimal(out, n);
    assert(out@ =~= start + zero_padded(n as nat, width as nat));
}

/// `10` to the power `k`.
pub open spec fn pow10(k: nat) -> nat
    decreases k,
{
    if k == 0 {
        1
    } else {
        10 * pow10((k - 1) as nat)
    }
}

/// A number below `10^k` has at most `k` decimal digits.
pub proof fn lemma_decimal_len_pow10(n: nat, k: nat)
    requires
        k >= 1,
        n < pow10(k),
    ensures
        decimal(n).len() <= k,
    decreases k,
{
    if n >= 10 {
        let p = pow10((k - 1) as nat);
        assert(n < 10 * p);
        assert(n / 10 < p) by (nonlinear_arith)
            requires
                n < 10 * p,
        ;
        if k == 1 {
            assert(p == 1);
        } else {
            lemma_decimal_len_pow10(n / 10, (k - 1) as nat);
        }
    }
}

/// A decimal rendering of a `u64` has between 1 and 20 characters.
pub proof fn lemma_decimal_len_bound(n: nat)
    ensures
        1 <= decimal(n).len(),
        n <= 0xffff_ffff_ffff_ffff ==> decimal(n).len() <= 20,
{
    if n <= 0xffff_ffff_ffff_ffff {
        assert(pow10(20) == 100000000000000000000) by {
            reveal_with_fuel(pow10, 21);
        }
        lemma_decimal_len_pow10(n, 20);
    }
}

/// The number of bytes that `c` takes in UTF-8.
pub open spec fn char_width(c: char) -> nat {
    vstd::utf8::encode_scalar(c as u32).len()
}

/// The char index at which byte offset `b` of the UTF-8 encoding of `s`
/// falls, when `b` is a char boundary (what `str::is_char_boundary` accepts).
pub open spec fn char_index_at(s: Seq<char>, b: int) -> Option<nat>
    decreases s.len(),
{
    if b == 0 {
        Some(0)
    } else if b < 0 || s.len() == 0 {
        None
    } else {
        match char_index_at(s.drop_first(), b - char_width(s[0])) {
            Some(k) => Some(k + 1),
            None => None,
        }
    }
}

/// The characters between byte offsets `i` and `j`, when both are char
/// boundaries and `i <= j`; what `&s[i..j]` gives, and `None` where it panics.
pub open spec fn byte_slice(s: Seq<char>, i: int, j: int) -> Option<Seq<char>> {
    match (char_index_at(s, i), char_index_at(s, j)) {
        (Some(a), Some(b)) => if a <= b {
            Some(s.subrange(a as int, b as int))
        } else {
            None
        },
        _ => None,
    }
}

/// The UTF-8 length of a sequence is the sum of the widths of its chars.
pub proof fn lemma_byte_len_first(s: Seq<char>)
    requires
        s.len() > 0,
    ensures
        byte_len(s) == char_width(s[0]) + byte_len(s.drop_first()),
{
}

/// The UTF-8 length of a concatenation is the sum of the lengths.
pub proof fn lemma_byte_len_concat(a: Seq<char>, b: Seq<char>)
    ensures
        byte_len(a + b) == byte_len(a) + byte_len(b),
    decreases a.len(),
{
    if a.len() == 0 {
        assert(a + b =~= b);
    } else {
        assert((a + b).drop_first() =~= a.drop_first() + b);
        lemma_byte_len_concat(a.drop_first(), b);
    }
}

/// Every char takes between one and four bytes; ASCII chars take one.
pub proof fn lemma_char_width(c: char)
    ensures
        1 <= char_width(c) <= 4,
        (c as u32) < 0x80 <==> char_width(c) == 1,
{
    broadcast use vstd::utf8::char_is_scalar;
}

/// An ASCII sequence has one byte per char.
pub proof fn lemma_byte_len_ascii(s: Seq<char>)
    requires
        forall|i: int| 0 <= i < s.len() ==> (#[trigger] s[i] as u32) < 0x80,
    ensures
        byte_len(s) == s.len(),
    decreases s.len(),
{
    if s.len() > 0 {
        lemma_char_width(s[0]);
        assert forall|i: int| 0 <= i < s.drop_first().len() implies (
        #[trigger] s.drop_first()[i] as u32) < 0x80 by {
            assert(s.drop_first()[i] == s[i + 1]);
        }
        lemma_byte_len_ascii(s.drop_first());
    }
}

/// A string of digits has one byte per char.
pub proof fn lemma_byte_len_digits(s: Seq<char>)
    requires
        all_digits(s),
    ensures
        byte_len(s) == s.len(),
{
    assert forall|i: int| 0 <= i < s.len() implies (#[trigger] s[i] as u32) < 0x80 by {
        assert(is_digit(s[i]));
    }
    lemma_byte_len_ascii(s);
}

/// The number of bytes that `c` takes in UTF-8.
pub fn utf8_width(c: char) -> (w: usize)
    ensures
        w == char_width(c),
{
    proof {
        broadcast use vstd::utf8::char_is_scalar;
    }
    let u = c as u32;
    if u < 0x80 {
        1
    } else if u < 0x800 {
        2
    } else if u < 0x10000 {
        3
    } else {
        4
    }
}

/// The number of bytes of the UTF-8 encoding of `s`, when it is at most
/// `cap`; `None` when the encoding is longer than `cap`.
pub fn byte_len_upto(s: &Vec<char>, cap: usize) -> (r: Option<usize>)
    requires
        cap <= usize::MAX - 4,
    ensures
        match r {
            Some(n) => n == byte_len(s@) && n <= cap,
            None => byte_len(s@) > cap,
        },
{
    let mut n: usize = 0;
    let mut i: usize = 0;
    while i < s.len()
        invariant
            i <= s.len(),
            n == byte_len(s@.subrange(0, i as int)),
            n <= cap,
            cap <= usize::MAX - 4,
        decreases s.len() - i,
    {
        let w = utf8_width(s[i]);
        proof {
            lemma_char_width(s@[i as int]);
            assert(s@.subrange(0, i + 1) =~= s@.subrange(0, i as int) + seq![s@[i as int]]);
            lemma_byte_len_concat(s@.subrange(0, i as int), seq![s@[i as int]]);
            lemma_byte_len_first(seq![s@[i as int]]);
            assert(seq![s@[i as int]].drop_first() =~= Seq::<char>::empty());
        }
        n = n + w;
        i = i + 1;
        if n > cap {
            proof {
                assert(s@ =~= s@.subrange(0, i as int) + s@.subrange(i as int, s.len() as int));
                lemma_byte_len_concat(s@.subrange(0, i as int), s@.subrange(i as int, s.len() as int));
            }
            return None;
        }
    }
    assert(s@.subrange(0, s.len() as int) =~= s@);
    Some(n)
}

/// `o` with `k` added to the index it holds.
pub open spec fn shift_index(o: Option<nat>, k: nat) -> Option<nat> {
    match o {
        Some(j) => Some(j + k),
        None => None,
    }
}

/// The char index at which byte offset `b` falls, if it is a char boundary.
pub fn index_at_byte(s: &Vec<char>, b: usize) -> (r: Option<usize>)
    ensures
        r == match char_index_at(s@, b as int) {
            Some(k) => Some(k as usize),
            None => None::<usize>,
        },
        r matches Some(k) ==> k <= s.len(),
{
    let mut p: usize = 0;
    let mut i: usize = 0;
    assert(s@.subrange(0, s.len() as int) =~= s@);
    while p < b && i < s.len()
        invariant
            i <= s.len(),
            p <= b,
            char_index_at(s@, b as int) == shift_index(
                char_index_at(s@.subrange(i as int, s.len() as int), b - p),
                i as nat,
            ),
        decreases s.len() - i,
    {
        let w = utf8_width(s[i]);
        let ghost suffix = s@.subrange(i as int, s.len() as int);
        assert(suffix.drop_first() =~= s@.subrange(i + 1, s.len() as int));
        assert(suffix[0] == s@[i as int]);
        proof {
            lemma_char_width(s@[i as int]);
        }
        if w > b - p {
            assert(char_index_at(s@.subrange(i + 1, s.len() as int), b - p - w) == None::<nat>);
            return None;
        }
        p = p + w;
        i = i + 1;
    }
    if p == b {
        Some(i)
    } else {
        assert(s@.subrange(i as int, s.len() as int) =~= Seq::<char>::empty());
        None
    }
}

/// The index of the first occurrence of `c` in `s`.
pub open spec fn find_char(s: Seq<char>, c: char) -> Option<nat>
    decreases s.len(),
{
    if s.len() == 0 {
        None
    } else if s[0] == c {
        Some(0)
    } else {
        shift_index(find_char(s.drop_first(), c), 1)
    }
}

/// What `str::split` with a `char` separator yields: the pieces between
/// separators, in order, empty ones included, at least one.
pub open spec fn split_char(s: Seq<char>, c: char) -> Seq<Seq<char>>
    decreases s.len(),
{
    if s.len() == 0 {
        seq![Seq::<char>::empty()]
    } else {
        let init = split_char(s.drop_last(), c);
        if s.last() == c {
            init.push(Seq::<char>::empty())
        } else {
            init.update(init.len() - 1, init.last().push(s.last()))
        }
    }
}

/// What `str::split_once` with a `char` separator gives.
pub open spec fn split_once_char(s: Seq<char>, c: char) -> Option<(Seq<char>, Seq<char>)> {
    match find_char(s, c) {
        Some(i) => Some((s.subrange(0, i as int), s.subrange((i + 1) as int, s.len() as int))),
        None => None,
    }
}

/// `split_char` always yields at least one piece.
pub proof fn lemma_split_char_nonempty(s: Seq<char>, c: char)
    ensures
        split_char(s, c).len() >= 1,
    decreases s.len(),
{
    if s.len() > 0 {
        lemma_split_char_nonempty(s.drop_last(), c);
    }
}

/// The first occurrence found is an occurrence, and none comes before it.
pub proof fn lemma_find_char(s: Seq<char>, c: char)
    ensures
        match find_char(s, c) {
            Some(i) => i < s.len() && s[i as int] == c && forall|j: int|
                0 <= j < i ==> s[j] != c,
            None => forall|j: int| 0 <= j < s.len() ==> s[j] != c,
        },
    decreases s.len(),
{
    if s.len() > 0 && s[0] != c {
        lemma_find_char(s.drop_first(), c);
        match find_char(s.drop_first(), c) {
            Some(i) => {
                assert forall|j: int| 0 <= j < i + 1 implies s[j] != c by {
                    if j > 0 {
                        assert(s[j] == s.drop_first()[j - 1]);
                    }
                }
            },
            None => {
                assert forall|j: int| 0 <= j < s.len() implies s[j] != c by {
                    if j > 0 {
                        assert(s[j] == s.drop_first()[j - 1]);
                    }
                }
            },
        }
    }
}

/// The pieces of `s` split on `c`, as `str::split` yields them.
pub fn split_chars(s: &Vec<char>, c: char) -> (parts: Vec<Vec<char>>)
    ensures
        parts@.len() == split_char(s@, c).len(),
        forall|k: int| 0 <= k < parts@.len() ==> #[trigger] parts@[k]@ == split_char(s@, c)[k],
{
    let mut parts: Vec<Vec<char>> = Vec::new();
    let mut cur: Vec<char> = Vec::new();
    let mut i: usize = 0;
    while i < s.len()
        invariant
            i <= s.len(),
            parts@.len() + 1 == split_char(s@.subrange(0, i as int), c).len(),
            forall|k: int|
                0 <= k < parts@.len() ==> #[trigger] parts@[k]@ == split_char(
                    s@.subrange(0, i as int),
                    c,
                )[k],
            cur@ == split_char(s@.subrange(0, i as int), c).last(),
        decreases s.len() - i,
    {
        let ghost prev = s@.subrange(0, i as int);
        let ghost next = s@.subrange(0, i + 1);
        assert(next.drop_last() =~= prev);
        assert(next.last() == s@[i as int]);
        proof {
            lemma_split_char_nonempty(prev, c);
        }
        if s[i] == c {
            let done = cur;
            parts.push(done);
            cur = Vec::new();
        } else {
            cur.push(s[i]);
        }
        i = i + 1;
    }
    assert(s@.subrange(0, s.len() as int) =~= s@);
    parts.push(cur);
    parts
}

/// Where `c` first occurs in `s`.
pub fn find_char_index(s: &Vec<char>, c: char) -> (r: Option<usize>)
    ensures
        r == match find_char(s@, c) {
            Some(i) => Some(i as usize),
            None => None::<usize>,
        },
{
    proof {
        lemma_find_char(s@, c);
    }
    let mut i: usize = 0;
    while i < s.len()
        invariant
            i <= s.len(),
            forall|j: int| 0 <= j < i ==> s@[j] != c,
            match find_char(s@, c) {
                Some(k) => k < s.len() && s@[k as int] == c && forall|j: int|
                    0 <= j < k ==> s@[j] != c,
                None => forall|j: int| 0 <= j < s.len() ==> s@[j] != c,
            },
        decreases s.len() - i,
    {
        if s[i] == c {
            return Some(i);
        }
        i = i + 1;
    }
    None
}

/// The chars `s[from..to]` as a new vector.
pub fn sub_chars(s: &Vec<char>, from: usize, to: usize) -> (r: Vec<char>)
    requires
        from <= to <= s.len(),
    ensures
        r@ == s@.subrange(from as int, to as int),
{
    let mut r: Vec<char> = Vec::new();
    let mut i: usize = from;
    while i < to
        invariant
            from <= i <= to <= s.len(),
            r@ == s@.subrange(from as int, i as int),
        decreases to - i,
    {
        r.push(s[i]);
        i = i + 1;
        assert(r@ =~= s@.subrange(from as int, i as int));
    }
    r
}

/// Whether every char of `s` is an ASCII digit.
pub fn all_digits_exec(s: &Vec<char>) -> (b: bool)
    ensures
        b == all_digits(s@),
{
    let mut i: usize = 0;
    while i < s.len()
        invariant
            i <= s.len(),
            forall|j: int| 0 <= j < i ==> #[trigger] is_digit(s@[j]),
        decreases s.len() - i,
    {
        if !(s[i] >= '0' && s[i] <= '9') {
            assert(!is_digit(s@[i as int]));
            return false;
        }
        i = i + 1;
    }
    true
}

/// The value of a string of at most four digits.
pub fn digits_u16(s: &Vec<char>) -> (v: u16)
    requires
        all_digits(s@),
        s.len() <= 4,
    ensures
        v == digits_value(s@),
{
    let mut v: u16 = 0;
    let mut i: usize = 0;
    while i < s.len()
        invariant
            i <= s.len() <= 4,
            all_digits(s@),
            v == digits_value(s@.subrange(0, i as int)),
            v < pow10(i as nat),
        decreases s.len() - i,
    {
        let ghost pre = s@.subrange(0, i + 1);
        assert(pre.drop_last() =~= s@.subrange(0, i as int));
        assert(is_digit(s@[i as int]));
        let d = (s[i] as u32 - '0' as u32) as u16;
        proof {
            reveal_with_fuel(pow10, 5);
            assert(v * 10 + d < pow10((i + 1) as nat)) by (nonlinear_arith)
                requires
                    v < pow10(i as nat),
                    d < 10,
                    pow10((i + 1) as nat) == 10 * pow10(i as nat),
            ;
            assert(pow10(4) == 10000);
            if i + 1 < 4 {
                assert(pow10((i + 1) as nat) <= 1000) by {
                    reveal_with_fuel(pow10, 4);
                }
            }
        }
        v = v * 10 + d;
        i = i + 1;
    }
    assert(s@.subrange(0, s.len() as int) =~= s@);
    v
}

/// A string of zeros has value zero, and only such strings do.
pub proof fn lemma_digits_value_zero(s: Seq<char>)
    requires
        all_digits(s),
    ensures
        digits_value(s) == 0 <==> forall|i: int| 0 <= i < s.len() ==> s[i] == '0',
    decreases s.len(),
{
    if s.len() > 0 {
        assert(all_digits(s.drop_last())) by {
            assert forall|i: int| 0 <= i < s.drop_last().len() implies is_digit(
                #[trigger] s.drop_last()[i],
            ) by {
                assert(s.drop_last()[i] == s[i]);
            }
        }
        lemma_digits_value_zero(s.drop_last());
        assert(is_digit(s.last()));
        if forall|i: int| 0 <= i < s.len() ==> s[i] == '0' {
            assert forall|i: int| 0 <= i < s.drop_last().len() implies s.drop_last()[i] == '0' by {
                assert(s.drop_last()[i] == s[i]);
            }
            assert(s.last() == s[s.len() - 1]);
        }
        if digits_value(s) == 0 {
            assert forall|i: int| 0 <= i < s.len() implies s[i] == '0' by {
                if i < s.len() - 1 {
                    assert(s.drop_last()[i] == s[i]);
                }
            }
        }
    }
}

/// Reading a digit string and writing it back padded to its own length
/// gives the same string.
pub proof fn lemma_zero_padded_digits(s: Seq<char>)
    requires
        all_digits(s),
        s.len() >= 1,
    ensures
        zero_padded(digits_value(s), s.len()) == s,
    decreases s.len(),
{
    let t = s.drop_last();
    let c = s.last();
    let v = digits_value(s);
    let vt = digits_value(t);
    let dc = digit_value(c);
    assert(is_digit(c));
    assert(all_digits(t)) by {
        assert forall|i: int| 0 <= i < t.len() implies is_digit(#[trigger] t[i]) by {
            assert(t[i] == s[i]);
        }
    }
    assert(v == vt * 10 + dc);
    assert(digit_char(dc) == c);
    assert(v / 10 == vt && v % 10 == dc) by (nonlinear_arith)
        requires
            v == vt * 10 + dc,
            dc < 10,
    ;
    if v < 10 {
        assert(vt == 0) by (nonlinear_arith)
            requires
                v == vt * 10 + dc,
                v < 10,
        ;
        lemma_digits_value_zero(t);
        assert(decimal(v) == seq![c]);
        assert(s =~= t.push(c));
        assert(t =~= Seq::new((s.len() - 1) as nat, |i: int| '0'));
        assert(zero_padded(v, s.len()) =~= s);
    } else {
        assert(vt >= 1) by (nonlinear_arith)
            requires
                v == vt * 10 + dc,
                v >= 10,
                dc < 10,
        ;
        assert(t.len() >= 1);
        lemma_zero_padded_digits(t);
        assert(decimal(v) == decimal(vt).push(c));
        assert(decimal(vt).len() <= t.len());
        assert(zero_padded(v, s.len()) =~= zero_padded(vt, t.len()).push(c));
        assert(zero_padded(v, s.len()) =~= s);
    }
}

/// A char boundary at byte offset `b` splits off a prefix of `b` bytes.
pub proof fn lemma_char_index_at(s: Seq<char>, b: int)
    ensures
        char_index_at(s, b) matches Some(k) ==> k <= s.len() && byte_len(
            s.subrange(0, k as int),
        ) == b,
    decreases s.len(),
{
    if b != 0 && b >= 0 && s.len() > 0 {
        let t = s.drop_first();
        lemma_char_index_at(t, b - char_width(s[0]));
        if let Some(k) = char_index_at(t, b - char_width(s[0])) {
            assert(s.subrange(0, (k + 1) as int) =~= seq![s[0]] + t.subrange(0, k as int));
            lemma_byte_len_concat(seq![s[0]], t.subrange(0, k as int));
            assert(seq![s[0]].drop_first() =~= Seq::<char>::empty());
            lemma_byte_len_first(seq![s[0]]);
        }
    } else if b == 0 {
        assert(s.subrange(0, 0) =~= Seq::<char>::empty());
    }
}

/// The end of the encoding is a char boundary, at the last char index.
pub proof fn lemma_char_index_at_end(s: Seq<char>)
    ensures
        char_index_at(s, byte_len(s) as int) == Some(s.len()),
    decreases s.len(),
{
    if s.len() > 0 {
        lemma_byte_len_first(s);
        lemma_char_width(s[0]);
        lemma_char_index_at_end(s.drop_first());
    }
}

/// The offset just after the first char is a boundary at char index 1.
pub proof fn lemma_char_index_at_first(s: Seq<char>)
    requires
        s.len() > 0,
    ensures
        char_index_at(s, char_width(s[0]) as int) == Some(1nat),
{
    lemma_char_width(s[0]);
    assert(char_index_at(s.drop_first(), 0) == Some(0nat));
}

/// Lexicographic order on strings (the order of `String`'s `Ord`).
pub open spec fn lex_lt(a: Seq<char>, b: Seq<char>) -> bool
    decreases a.len(),
{
    if a.len() == 0 {
        b.len() > 0
    } else if b.len() == 0 {
        false
    } else if a[0] != b[0] {
        (a[0] as u32) < (b[0] as u32)
    } else {
        lex_lt(a.drop_first(), b.drop_first())
    }
}

/// Lexicographic order on sequences of numbers.
pub open spec fn nat_lex_lt(a: Seq<nat>, b: Seq<nat>) -> bool
    decreases a.len(),
{
    if a.len() == 0 {
        b.len() > 0
    } else if b.len() == 0 {
        false
    } else if a[0] != b[0] {
        a[0] < b[0]
    } else {
        nat_lex_lt(a.drop_first(), b.drop_first())
    }
}

/// Numbers written zero-padded, piece by piece, with the given widths.
pub open spec fn padded_concat(c: Seq<nat>, w: Seq<nat>) -> Seq<char>
    decreases c.len(),
{
    if c.len() == 0 || w.len() == 0 {
        Seq::<char>::empty()
    } else {
        zero_padded(c[0], w[0]) + padded_concat(c.drop_first(), w.drop_first())
    }
}

/// Comparing two concatenations whose first parts have equal length
/// compares the first parts, then the second.
pub proof fn lemma_lex_concat(a1: Seq<char>, a2: Seq<char>, b1: Seq<char>, b2: Seq<char>)
    requires
        a1.len() == b1.len(),
    ensures
        lex_lt(a1 + a2, b1 + b2) == (lex_lt(a1, b1) || (a1 == b1 && lex_lt(a2, b2))),
    decreases a1.len(),
{
    if a1.len() == 0 {
        assert(a1 + a2 =~= a2);
        assert(b1 + b2 =~= b2);
        assert(a1 =~= b1);
    } else {
        assert((a1 + a2).drop_first() =~= a1.drop_first() + a2);
        assert((b1 + b2).drop_first() =~= b1.drop_first() + b2);
        lemma_lex_concat(a1.drop_first(), a2, b1.drop_first(), b2);
        if a1[0] == b1[0] && a1.drop_first() == b1.drop_first() {
            assert(a1 =~= b1) by {
                assert forall|i: int| 0 <= i < a1.len() implies a1[i] == b1[i] by {
                    if i > 0 {
                        assert(a1[i] == a1.drop_first()[i - 1]);
                        assert(b1[i] == b1.drop_first()[i - 1]);
                    }
                }
            }
        }
        if a1 == b1 {
            assert(a1.drop_first() == b1.drop_first());
        }
    }
}

/// A padded number is exactly as wide as asked when it fits.
pub proof fn lemma_zero_padded_len(n: nat, w: nat)
    requires
        w >= 1,
        n < pow10(w),
    ensures
        zero_padded(n, w).len() == w,
{
    lemma_decimal_len_pow10(n, w);
}

/// The last digit of a padded number splits off.
pub proof fn lemma_zero_padded_step(n: nat, w: nat)
    requires
        w >= 2,
        n < pow10(w),
    ensures
        zero_padded(n, w) == zero_padded(n / 10, (w - 1) as nat).push(digit_char(n % 10)),
        n / 10 < pow10((w - 1) as nat),
{
    let p = pow10((w - 1) as nat);
    assert(n / 10 < p) by (nonlinear_arith)
        requires
            n < 10 * p,
    ;
    lemma_decimal_len_pow10(n / 10, (w - 1) as nat);
    if n >= 10 {
        assert(zero_padded(n, w) =~= zero_padded(n / 10, (w - 1) as nat).push(
            digit_char(n % 10),
        ));
    } else {
        assert(n / 10 == 0);
        assert(n % 10 == n);
        assert(decimal(0) == seq!['0']);
        assert(zero_padded(n, w) =~= zero_padded(n / 10, (w - 1) as nat).push(
            digit_char(n % 10),
        ));
    }
}

/// Single characters compare by code.
pub proof fn lemma_lex_single(x: char, y: char)
    ensures
        lex_lt(seq![x], seq![y]) == ((x as u32) < (y as u32)),
{
    assert(seq![x].drop_first() =~= Seq::<char>::empty());
    assert(seq![y].drop_first() =~= Seq::<char>::empty());
    assert(!lex_lt(Seq::<char>::empty(), Seq::<char>::empty()));
    if x == y {
        assert(seq![x][0] == seq![y][0]);
    }
}

/// A digit character's code is `'0'` plus the digit.
pub proof fn lemma_digit_char(d: nat)
    requires
        d < 10,
    ensures
        digit_char(d) as u32 == d + 48,
        is_digit(digit_char(d)),
        digit_value(digit_char(d)) == d,
{
}

/// Zero-padded numbers of one width compare as the numbers do.
pub proof fn lemma_zero_padded_order(n1: nat, n2: nat, w: nat)
    requires
        w >= 1,
        n1 < pow10(w),
        n2 < pow10(w),
    ensures
        lex_lt(zero_padded(n1, w), zero_padded(n2, w)) <==> n1 < n2,
        zero_padded(n1, w) == zero_padded(n2, w) <==> n1 == n2,
        zero_padded(n1, w).len() == w,
        zero_padded(n2, w).len() == w,
    decreases w,
{
    lemma_zero_padded_len(n1, w);
    lemma_zero_padded_len(n2, w);
    if w == 1 {
        assert(n1 < 10 && n2 < 10) by {
            reveal_with_fuel(pow10, 2);
        }
        assert(zero_padded(n1, w) == seq![digit_char(n1)]);
        assert(zero_padded(n2, w) == seq![digit_char(n2)]);
        assert(seq![digit_char(n1)].drop_first() =~= Seq::<char>::empty());
        assert(seq![digit_char(n2)].drop_first() =~= Seq::<char>::empty());
        lemma_digit_char(n1);
        lemma_digit_char(n2);
        lemma_lex_single(digit_char(n1), digit_char(n2));
        if zero_padded(n1, w) == zero_padded(n2, w) {
            assert(zero_padded(n1, w)[0] == zero_padded(n2, w)[0]);
        }
    } else {
        lemma_zero_padded_step(n1, w);
        lemma_zero_padded_step(n2, w);
        lemma_zero_padded_order(n1 / 10, n2 / 10, (w - 1) as nat);
        let a = zero_padded(n1 / 10, (w - 1) as nat);
        let b = zero_padded(n2 / 10, (w - 1) as nat);
        let x = digit_char(n1 % 10);
        let y = digit_char(n2 % 10);
        lemma_lex_concat(a, seq![x], b, seq![y]);
        lemma_digit_char(n1 % 10);
        lemma_digit_char(n2 % 10);
        lemma_lex_single(x, y);
        assert(a.push(x) =~= a + seq![x]);
        assert(b.push(y) =~= b + seq![y]);
        assert(seq![x].drop_first() =~= Seq::<char>::empty());
        assert(seq![y].drop_first() =~= Seq::<char>::empty());
        assert(n1 == (n1 / 10) * 10 + n1 % 10 && n2 == (n2 / 10) * 10 + n2 % 10)
            by (nonlinear_arith);
        assert(n1 < n2 <==> (n1 / 10 < n2 / 10 || (n1 / 10 == n2 / 10 && n1 % 10 < n2 % 10)))
            by (nonlinear_arith)
            requires
                n1 == (n1 / 10) * 10 + n1 % 10,
                n2 == (n2 / 10) * 10 + n2 % 10,
                n1 % 10 < 10,
                n2 % 10 < 10,
        ;
        if a.push(x) == b.push(y) {
            assert(a =~= a.push(x).drop_last());
            assert(b =~= b.push(y).drop_last());
            assert(a.push(x).last() == b.push(y).last());
        }
    }
}

/// Numbers that each fit their width, written zero-padded and concatenated,
/// compare as the number sequences do.
pub proof fn lemma_padded_concat_order(c1: Seq<nat>, c2: Seq<nat>, w: Seq<nat>)
    requires
        c1.len() == w.len(),
        c2.len() == w.len(),
        forall|i: int| 0 <= i < w.len() ==> w[i] >= 1,
        forall|i: int| 0 <= i < w.len() ==> #[trigger] c1[i] < pow10(w[i]),
        forall|i: int| 0 <= i < w.len() ==> #[trigger] c2[i] < pow10(w[i]),
    ensures
        lex_lt(padded_concat(c1, w), padded_concat(c2, w)) <==> nat_lex_lt(c1, c2),
        padded_concat(c1, w) == padded_concat(c2, w) <==> c1 == c2,
    decreases w.len(),
{
    if w.len() == 0 {
        assert(c1 =~= c2);
    } else {
        assert(c1[0] < pow10(w[0]));
        assert(c2[0] < pow10(w[0]));
        lemma_zero_padded_order(c1[0], c2[0], w[0]);
        assert forall|i: int| 0 <= i < w.drop_first().len() implies #[trigger] c1.drop_first()[i]
            < pow10(w.drop_first()[i]) by {
            assert(c1[i + 1] < pow10(w[i + 1]));
        }
        assert forall|i: int| 0 <= i < w.drop_first().len() implies #[trigger] c2.drop_first()[i]
            < pow10(w.drop_first()[i]) by {
            assert(c2[i + 1] < pow10(w[i + 1]));
        }
        assert forall|i: int| 0 <= i < w.drop_first().len() implies w.drop_first()[i] >= 1 by {
            assert(w[i + 1] >= 1);
        }
        lemma_padded_concat_order(c1.drop_first(), c2.drop_first(), w.drop_first());
        lemma_lex_concat(
            zero_padded(c1[0], w[0]),
            padded_concat(c1.drop_first(), w.drop_first()),
            zero_padded(c2[0], w[0]),
            padded_concat(c2.drop_first(), w.drop_first()),
        );
        if c1 == c2 {
            assert(c1.drop_first() == c2.drop_first());
        }
        if c1[0] == c2[0] && c1.drop_first() == c2.drop_first() {
            assert(c1 =~= c2) by {
                assert forall|i: int| 0 <= i < c1.len() implies c1[i] == c2[i] by {
                    if i > 0 {
                        assert(c1[i] == c1.drop_first()[i - 1]);
                        assert(c2[i] == c2.drop_first()[i - 1]);
                    }
                }
            }
        }
        if padded_concat(c1, w) == padded_concat(c2, w) {
            let l = zero_padded(c1[0], w[0]).len();
            assert(zero_padded(c1[0], w[0]) =~= padded_concat(c1, w).subrange(0, l as int));
            assert(zero_padded(c2[0], w[0]) =~= padded_concat(c2, w).subrange(0, l as int));
            assert(padded_concat(c1.drop_first(), w.drop_first()) =~= padded_concat(c1, w).subrange(
                l as int,
                padded_concat(c1, w).len() as int,
            ));
            assert(padded_concat(c2.drop_first(), w.drop_first()) =~= padded_concat(c2, w).subrange(
                l as int,
                padded_concat(c2, w).len() as int,
            ));
        }
    }
}

/// Padded concatenation distributes over appending pieces.
pub proof fn lemma_padded_concat_append(c1: Seq<nat>, c2: Seq<nat>, w1: Seq<nat>, w2: Seq<nat>)
    requires
        c1.len() == w1.len(),
    ensures
        padded_concat(c1 + c2, w1 + w2) == padded_concat(c1, w1) + padded_concat(c2, w2),
    decreases c1.len(),
{
    if c1.len() == 0 {
        assert(c1 + c2 =~= c2);
        assert(w1 + w2 =~= w2);
        assert(padded_concat(c1, w1) + padded_concat(c2, w2) =~= padded_concat(c2, w2));
    } else {
        assert((c1 + c2).drop_first() =~= c1.drop_first() + c2);
        assert((w1 + w2).drop_first() =~= w1.drop_first() + w2);
        lemma_padded_concat_append(c1.drop_first(), c2, w1.drop_first(), w2);
        assert(padded_concat(c1 + c2, w1 + w2) =~= padded_concat(c1, w1) + padded_concat(c2, w2));
    }
}

/// One, two or three numbers zero-padded to the given widths, concatenated.
pub proof fn lemma_padded_concat_small(c: Seq<nat>, w: Seq<nat>)
    requires
        c.len() == w.len(),
        1 <= c.len() <= 3,
    ensures
        padded_concat(c, w) == if c.len() == 1 {
            zero_padded(c[0], w[0])
        } else if c.len() == 2 {
            zero_padded(c[0], w[0]) + zero_padded(c[1], w[1])
        } else {
            zero_padded(c[0], w[0]) + zero_padded(c[1], w[1]) + zero_padded(c[2], w[2])
        },
{
    let c1 = c.drop_first();
    let w1 = w.drop_first();
    if c.len() == 1 {
        assert(padded_concat(c1, w1) == Seq::<char>::empty());
        assert(padded_concat(c, w) =~= zero_padded(c[0], w[0]));
    } else if c.len() == 2 {
        assert(padded_concat(c1.drop_first(), w1.drop_first()) == Seq::<char>::empty());
        assert(padded_concat(c1, w1) =~= zero_padded(c[1], w[1]));
        assert(padded_concat(c, w) =~= zero_padded(c[0], w[0]) + zero_padded(c[1], w[1]));
    } else {
        let c2 = c1.drop_first();
        let w2 = w1.drop_first();
        assert(padded_concat(c2.drop_first(), w2.drop_first()) == Seq::<char>::empty());
        assert(padded_concat(c2, w2) =~= zero_padded(c[2], w[2]));
        assert(padded_concat(c1, w1) =~= zero_padded(c[1], w[1]) + zero_padded(c[2], w[2]));
        assert(padded_concat(c, w) =~= zero_padded(c[0], w[0]) + zero_padded(c[1], w[1])
            + zero_padded(c[2], w[2]));
    }
}

/// The value of a string of at most nineteen digits.
pub fn digits_u64(s: &Vec<char>) -> (v: u64)
    requires
        all_digits(s@),
        s.len() <= 19,
    ensures
        v == digits_value(s@),
        v < pow10(s.len() as nat),
{
    let mut v: u64 = 0;
    let mut i: usize = 0;
    proof {
        lemma_pow10_mono(0, 19);
    }
    while i < s.len()
        invariant
            i <= s.len() <= 19,
            all_digits(s@),
            v == digits_value(s@.subrange(0, i as int)),
            v < pow10(i as nat),
            pow10(19) == 10000000000000000000,
        decreases s.len() - i,
    {
        let ghost pre = s@.subrange(0, i + 1);
        assert(pre.drop_last() =~= s@.subrange(0, i as int));
        assert(is_digit(s@[i as int]));
        let d = (s[i] as u32 - '0' as u32) as u64;
        proof {
            assert(v * 10 + d < pow10((i + 1) as nat)) by (nonlinear_arith)
                requires
                    v < pow10(i as nat),
                    d < 10,
                    pow10((i + 1) as nat) == 10 * pow10(i as nat),
            ;
            lemma_pow10_mono((i + 1) as nat, 19);
        }
        v = v * 10 + d;
        i = i + 1;
    }
    assert(s@.subrange(0, s.len() as int) =~= s@);
    v
}

/// Powers of ten grow with the exponent.
pub proof fn lemma_pow10_mono(a: nat, b: nat)
    requires
        a <= b,
    ensures
        pow10(a) <= pow10(b),
        pow10(19) == 10000000000000000000,
    decreases b,
{
    reveal_with_fuel(pow10, 20);
    if a < b {
        lemma_pow10_mono(a, (b - 1) as nat);
    }
}

/// A field written in ASCII digits only, at least one.
pub open spec fn digit_field(s: Seq<char>) -> bool {
    s.len() > 0 && all_digits(s)
}

/// The value of a field of ASCII digits, or `None` when it is empty or
/// holds anything but digits.
pub fn parse_digits(s: &Vec<char>) -> (r: Option<u64>)
    requires
        s.len() <= 9,
    ensures
        r is Some <==> digit_field(s@),
        r matches Some(v) ==> v == digits_value(s@) && v < pow10(s.len() as nat),
{
    if s.len() == 0 || !all_digits_exec(s) {
        return None;
    }
    Some(digits_u64(s))
}

/// A digit string of `n` chars has a value below `10^n`.
pub proof fn lemma_digits_value_bound(s: Seq<char>)
    requires
        all_digits(s),
    ensures
        digits_value(s) < pow10(s.len()),
    decreases s.len(),
{
    if s.len() > 0 {
        assert(all_digits(s.drop_last())) by {
            assert forall|i: int| 0 <= i < s.drop_last().len() implies is_digit(
                #[trigger] s.drop_last()[i],
            ) by {
                assert(s.drop_last()[i] == s[i]);
            }
        }
        lemma_digits_value_bound(s.drop_last());
        assert(is_digit(s.last()));
        let a = digits_value(s.drop_last());
        let p = pow10(s.drop_last().len());
        let d = digit_value(s.last());
        assert(a * 10 + d < 10 * p) by (nonlinear_arith)
            requires
                a < p,
                d < 10,
        ;
    }
}

/// A sequence has no more chars than its encoding has bytes.
pub proof fn lemma_len_le_byte_len(s: Seq<char>)
    ensures
        s.len() <= byte_len(s),
    decreases s.len(),
{
    if s.len() > 0 {
        lemma_char_width(s[0]);
        lemma_len_le_byte_len(s.drop_first());
    }
}

/// What `FromStr` for `u8` gives: the value when `s` is an optional `+`
/// and at least one digit and the value is at most 255.
pub fn parse_std_u8(s: &Vec<char>) -> (r: Option<u8>)
    ensures
        r is Some <==> (std_unsigned_syntax(s@) && std_unsigned_value(s@) <= 255),
        r matches Some(v) ==> v == std_unsigned_value(s@),
{
    let start: usize = if s.len() > 0 && s[0] == '+' {
        1
    } else {
        0
    };
    let ghost digits = s@.subrange(start as int, s.len() as int);
    assert(start == 1 ==> digits =~= s@.drop_first());
    assert(start == 0 ==> digits =~= s@);
    if s.len() <= start || !all_digits_exec(&sub_chars(s, start, s.len())) {
        return None;
    }
    let mut v: u64 = 0;
    let mut i: usize = start;
    while i < s.len()
        invariant
            start <= i <= s.len(),
            digits == s@.subrange(start as int, s.len() as int),
            all_digits(digits),
            v == if digits_value(s@.subrange(start as int, i as int)) < 256 {
                digits_value(s@.subrange(start as int, i as int))
            } else {
                256
            },
        decreases s.len() - i,
    {
        let ghost pre = s@.subrange(start as int, i + 1);
        assert(pre.drop_last() =~= s@.subrange(start as int, i as int));
        assert(is_digit(digits[i - start]));
        assert(pre.last() == digits[i - start]);
        let d = (s[i] as u32 - '0' as u32) as u64;
        let nv = v * 10 + d;
        v = if nv < 256 {
            nv
        } else {
            256
        };
        i = i + 1;
    }
    assert(s@.subrange(start as int, s.len() as int) =~= digits);
    if v < 256 {
        Some(v as u8)
    } else {
        None
    }
}

/// Byte boundaries come in the order of their char indices.
pub proof fn lemma_boundary_order(s: Seq<char>, i: int, j: int)
    requires
        i <= j,
        char_index_at(s, i) is Some,
        char_index_at(s, j) is Some,
    ensures
        char_index_at(s, i)->Some_0 <= char_index_at(s, j)->Some_0,
    decreases s.len(),
{
    if i != 0 && s.len() > 0 {
        lemma_char_width(s[0]);
        lemma_boundary_order(s.drop_first(), i - char_width(s[0]), j
            - char_width(s[0]));
    }
}

/// A char boundary lies within the encoding.
pub proof fn lemma_boundary_le_len(s: Seq<char>, b: int)
    requires
        char_index_at(s, b) is Some,
    ensures
        0 <= b <= byte_len(s),
{
    lemma_char_index_at(s, b);
    let k = char_index_at(s, b)->Some_0;
    assert(s =~= s.subrange(0, k as int) + s.subrange(k as int, s.len() as int));
    lemma_byte_len_concat(s.subrange(0, k as int), s.subrange(k as int, s.len() as int));
}

} // verus!
