//! Characters, white space, prefixes and trimming.
//!
//! Text is modelled as `Seq<char>`; a line never holds its own line ending.

use vstd::prelude::*;

verus! {

/// Whether `c` is white space: one of the characters that Unicode marks
/// as `White_Space`.
pub open spec fn is_space(c: char) -> bool {
    ||| '\u{9}' <= c <= '\u{D}'
    ||| c == ' '
    ||| c == '\u{85}'
    ||| c == '\u{A0}'
    ||| c == '\u{1680}'
    ||| '\u{2000}' <= c <= '\u{200A}'
    ||| c == '\u{2028}'
    ||| c == '\u{2029}'
    ||| c == '\u{202F}'
    ||| c == '\u{205F}'
    ||| c == '\u{3000}'
}

/// The number of white-space characters at the front of `s`.
pub open spec fn leading_spaces(s: Seq<char>) -> nat
    decreases s.len(),
{
    if s.len() > 0 && is_space(s[0]) {
        1 + leading_spaces(s.drop_first())
    } else {
        0
    }
}

/// The number of white-space characters at the back of `s`.
pub open spec fn trailing_spaces(s: Seq<char>) -> nat
    decreases s.len(),
{
    if s.len() > 0 && is_space(s.last()) {
        1 + trailing_spaces(s.drop_last())
    } else {
        0
    }
}

/// `s` without its leading white space.
pub open spec fn trim_start(s: Seq<char>) -> Seq<char> {
    s.skip(leading_spaces(s) as int)
}

/// `s` without its trailing white space.
pub open spec fn trim_end(s: Seq<char>) -> Seq<char> {
    s.take(s.len() - trailing_spaces(s))
}

/// `s` without white space at either end.
pub open spec fn trim(s: Seq<char>) -> Seq<char> {
    trim_end(trim_start(s))
}

/// Whether `s` begins with `p`.
pub open spec fn starts_with(s: Seq<char>, p: Seq<char>) -> bool {
    p.len() <= s.len() && s.take(p.len() as int) == p
}

/// Whether `s` ends with `p`.
pub open spec fn ends_with(s: Seq<char>, p: Seq<char>) -> bool {
    p.len() <= s.len() && s.skip(s.len() - p.len()) == p
}

/// The leading white space of `s` is a run of spaces that stops at the first
/// other character.
pub proof fn lemma_leading_spaces(s: Seq<char>)
    ensures
        leading_spaces(s) <= s.len(),
        forall|i: int| 0 <= i < leading_spaces(s) ==> is_space(#[trigger] s[i]),
        leading_spaces(s) < s.len() ==> !is_space(s[leading_spaces(s) as int]),
    decreases s.len(),
{
    if s.len() > 0 && is_space(s[0]) {
        let t = s.drop_first();
        lemma_leading_spaces(t);
        assert forall|i: int| 0 <= i < leading_spaces(s) implies is_space(#[trigger] s[i]) by {
            if i > 0 {
                assert(s[i] == t[i - 1]);
            }
        }
        if leading_spaces(s) < s.len() {
            assert(s[leading_spaces(s) as int] == t[leading_spaces(t) as int]);
        }
    }
}

/// A run of `n` spaces that stops at another character, or at the end, is
/// the leading white space.
pub proof fn lemma_leading_spaces_is(s: Seq<char>, n: int)
    requires
        0 <= n <= s.len(),
        forall|i: int| 0 <= i < n ==> is_space(#[trigger] s[i]),
        n < s.len() ==> !is_space(s[n]),
    ensures
        leading_spaces(s) == n,
    decreases s.len(),
{
    if n > 0 {
        let t = s.drop_first();
        assert(is_space(s[0]));
        assert forall|i: int| 0 <= i < n - 1 implies is_space(#[trigger] t[i]) by {
            assert(t[i] == s[i + 1]);
        }
        if n - 1 < t.len() {
            assert(t[n - 1] == s[n]);
        }
        lemma_leading_spaces_is(t, n - 1);
    }
}

/// The trailing white space of `s` is a run of spaces that starts after the
/// last other character.
pub proof fn lemma_trailing_spaces(s: Seq<char>)
    ensures
        trailing_spaces(s) <= s.len(),
        forall|i: int| s.len() - trailing_spaces(s) <= i < s.len() ==> is_space(#[trigger] s[i]),
        trailing_spaces(s) < s.len() ==> !is_space(s[s.len() - trailing_spaces(s) - 1]),
    decreases s.len(),
{
    if s.len() > 0 && is_space(s.last()) {
        let t = s.drop_last();
        lemma_trailing_spaces(t);
        assert forall|i: int| s.len() - trailing_spaces(s) <= i < s.len() implies is_space(
            #[trigger] s[i],
        ) by {
            if i < s.len() - 1 {
                assert(s[i] == t[i]);
            }
        }
        if trailing_spaces(s) < s.len() {
            assert(s[s.len() - trailing_spaces(s) - 1] == t[t.len() - trailing_spaces(t) - 1]);
        }
    }
}

/// A run of `n` spaces at the back that starts after another character, or
/// at the front, is the trailing white space.
pub proof fn lemma_trailing_spaces_is(s: Seq<char>, n: int)
    requires
        0 <= n <= s.len(),
        forall|i: int| s.len() - n <= i < s.len() ==> is_space(#[trigger] s[i]),
        n < s.len() ==> !is_space(s[s.len() - n - 1]),
    ensures
        trailing_spaces(s) == n,
    decreases s.len(),
{
    if n > 0 {
        let t = s.drop_last();
        assert(is_space(s[s.len() - 1]));
        assert forall|i: int| t.len() - (n - 1) <= i < t.len() implies is_space(
            #[trigger] t[i],
        ) by {
            assert(t[i] == s[i]);
        }
        if n - 1 < t.len() {
            assert(t[t.len() - (n - 1) - 1] == s[s.len() - n - 1]);
        }
        lemma_trailing_spaces_is(t, n - 1);
    }
}

/// The trimmed text is the part of `s` from its first to its last character
/// that is not white space.
pub proof fn lemma_trim_is_subrange(s: Seq<char>, from: int, to: int)
    requires
        0 <= from <= to <= s.len(),
        forall|i: int| 0 <= i < from ==> is_space(#[trigger] s[i]),
        forall|i: int| to <= i < s.len() ==> is_space(#[trigger] s[i]),
        from < to ==> !is_space(s[from]) && !is_space(s[to - 1]),
        from == to ==> from == s.len(),
    ensures
        leading_spaces(s) == from,
        trim(s) == s.subrange(from, to),
{
    lemma_leading_spaces_is(s, from);
    let t = s.skip(from);
    assert forall|i: int| t.len() - (s.len() - to) <= i < t.len() implies is_space(
        #[trigger] t[i],
    ) by {
        assert(t[i] == s[i + from]);
    }
    if s.len() - to < t.len() {
        assert(t[t.len() - (s.len() - to) - 1] == s[to - 1]);
    }
    lemma_trailing_spaces_is(t, s.len() - to);
    assert(trim(s) =~= s.subrange(from, to));
}

/// The ten digits.
pub open spec fn digits() -> Seq<char> {
    seq!['0', '1', '2', '3', '4', '5', '6', '7', '8', '9']
}

/// A natural number written in decimal digits, without leading zeros.
pub open spec fn digits_of(n: nat) -> Seq<char>
    decreases n,
{
    if n < 10 {
        seq![digits()[n as int]]
    } else {
        digits_of(n / 10).push(digits()[(n % 10) as int])
    }
}

/// An integer written in decimal digits, with `-` before a negative one.
pub open spec fn decimal_of(n: int) -> Seq<char> {
    if n < 0 {
        seq!['-'] + digits_of((-n) as nat)
    } else {
        digits_of(n as nat)
    }
}

/// Whether `c` is a letter: what Unicode marks as `Alphabetic`, as
/// `char::is_alphabetic` tells.
pub uninterp spec fn is_alphabetic(c: char) -> bool;

/// The text in lower case, as `str::to_lowercase` gives it.
pub uninterp spec fn lowercase_of(text: Seq<char>) -> Seq<char>;

/// Trusted, not proved: calls `char::is_alphabetic`, which tells whether
/// Unicode marks a character as `Alphabetic`; the contract only gives the
/// answer its name, `is_alphabetic`.
#[verifier::external_body]
fn alphabetic(c: char) -> (b: bool)
    ensures
        b == is_alphabetic(c),
{
    c.is_alphabetic()
}

/// Trusted, not proved: calls `str::to_lowercase`, which returns the
/// lower-case equivalent of a text as a new `String`; the contract only
/// gives that text its name, `lowercase_of`.
#[verifier::external_body]
pub(crate) fn lowered(text: &str) -> (r: String)
    ensures
        r@ == lowercase_of(text@),
{
    text.to_lowercase()
}

/// Whether every character of the text is alphabetic. The empty text is
/// such a text.
pub open spec fn is_word(text: Seq<char>) -> bool {
    forall|i: int| 0 <= i < text.len() ==> is_alphabetic(#[trigger] text[i])
}

/// The test for being the character `c`.
pub open spec fn is_char(c: char) -> spec_fn(char) -> bool {
    |x: char| x == c
}

/// How many times `c` occurs in the text.
pub open spec fn count_of(text: Seq<char>, c: char) -> nat {
    text.filter(is_char(c)).len()
}

/// Tests a character for white space.
pub fn char_is_space(c: char) -> (b: bool)
    ensures
        b == is_space(c),
{
    ('\u{9}' <= c && c <= '\u{D}') || c == ' ' || c == '\u{85}' || c == '\u{A0}' || c == '\u{1680}'
        || ('\u{2000}' <= c && c <= '\u{200A}') || c == '\u{2028}' || c == '\u{2029}' || c
        == '\u{202F}' || c == '\u{205F}' || c == '\u{3000}'
}

/// The characters of `s`, in order.
pub fn chars_of(s: &str) -> (v: Vec<char>)
    ensures
        v@ == s@,
{
    let mut v: Vec<char> = Vec::new();
    for c in it: s.chars()
        invariant
            v@ == it.seq().take(it.index() as int),
            it.seq() == s@,
    {
        v.push(c);
    }
    v
}

/// Where the trimmed part of the characters from `from` to `to` begins and
/// ends.
pub fn trim_within(chars: &Vec<char>, from: usize, to: usize) -> (r: (usize, usize))
    requires
        from <= to <= chars@.len(),
    ensures
        from <= r.0 <= r.1 <= to,
        r.0 - from == leading_spaces(chars@.subrange(from as int, to as int)),
        chars@.subrange(r.0 as int, r.1 as int) == trim(chars@.subrange(from as int, to as int)),
{
    let ghost part = chars@.subrange(from as int, to as int);
    let mut a: usize = from;
    while a < to && char_is_space(chars[a])
        invariant
            from <= a <= to <= chars@.len(),
            part == chars@.subrange(from as int, to as int),
            forall|i: int| 0 <= i < a - from ==> is_space(#[trigger] part[i]),
        decreases to - a,
    {
        a += 1;
    }
    let mut b: usize = to;
    while b > a && char_is_space(chars[b - 1])
        invariant
            from <= a <= b <= to <= chars@.len(),
            a < to ==> !is_space(chars@[a as int]),
            part == chars@.subrange(from as int, to as int),
            forall|i: int| b - from <= i < part.len() ==> is_space(#[trigger] part[i]),
        decreases b,
    {
        b -= 1;
    }
    proof {
        if a < to {
            assert(part[a - from] == chars@[a as int]);
        }
        if a < b {
            assert(part[b - from - 1] == chars@[b - 1]);
        }
        lemma_trim_is_subrange(part, a - from, b - from);
        assert(part.subrange(a - from, b - from) =~= chars@.subrange(a as int, b as int));
    }
    (a, b)
}

/// Where the trimmed part of `chars` begins and ends.
pub fn trim_bounds(chars: &Vec<char>) -> (r: (usize, usize))
    ensures
        r.0 <= r.1 <= chars@.len(),
        r.0 == leading_spaces(chars@),
        chars@.subrange(r.0 as int, r.1 as int) == trim(chars@),
{
    assert(chars@.subrange(0, chars@.len() as int) =~= chars@);
    trim_within(chars, 0, chars.len())
}

/// Whether the part of `chars` from `from` to `to` begins with `prefix`.
pub fn has_prefix_within(chars: &Vec<char>, from: usize, to: usize, prefix: &str) -> (b: bool)
    requires
        from <= to <= chars@.len(),
    ensures
        b == starts_with(chars@.subrange(from as int, to as int), prefix@),
{
    let p = chars_of(prefix);
    let m = p.len();
    if m > to - from {
        return false;
    }
    let ghost part = chars@.subrange(from as int, to as int);
    let mut j: usize = 0;
    while j < m
        invariant
            j <= m == p@.len(),
            p@ == prefix@,
            m <= to - from,
            from <= to <= chars@.len(),
            part == chars@.subrange(from as int, to as int),
            forall|i: int| 0 <= i < j ==> part[i] == #[trigger] p@[i],
        decreases m - j,
    {
        if chars[from + j] != p[j] {
            assert(part.take(m as int)[j as int] != p@[j as int]);
            return false;
        }
        j += 1;
    }
    assert(part.take(m as int) =~= p@);
    true
}

/// Whether two strings hold the same characters.
pub fn same_text(a: &str, b: &str) -> (r: bool)
    ensures
        r == (a@ == b@),
{
    let x = chars_of(a);
    let y = chars_of(b);
    if x.len() != y.len() {
        return false;
    }
    let n = x.len();
    let mut i: usize = 0;
    while i < n
        invariant
            i <= n == x@.len(),
            n == y@.len(),
            x@ == a@,
            y@ == b@,
            forall|k: int| 0 <= k < i ==> x@[k] == #[trigger] y@[k],
        decreases n - i,
    {
        if x[i] != y[i] {
            return false;
        }
        i += 1;
    }
    assert(x@ =~= y@);
    true
}

/// Whether every character of the text is alphabetic.
pub fn text_is_word(text: &str) -> (b: bool)
    ensures
        b == is_word(text@),
{
    let chars = chars_of(text);
    let n = chars.len();
    let mut i: usize = 0;
    while i < n
        invariant
            i <= n == chars@.len(),
            chars@ == text@,
            forall|k: int| 0 <= k < i ==> is_alphabetic(#[trigger] text@[k]),
        decreases n - i,
    {
        if !alphabetic(chars[i]) {
            return false;
        }
        i += 1;
    }
    true
}

/// How many times `c` occurs in the text.
pub fn count_char(text: &str, c: char) -> (n: usize)
    ensures
        n == count_of(text@, c),
{
    let chars = chars_of(text);
    let len = chars.len();
    let ghost is_c = is_char(c);
    let mut n: usize = 0;
    let mut i: usize = 0;
    proof {
        reveal(Seq::filter);
    }
    assert(chars@.take(0) =~= Seq::<char>::empty());
    while i < len
        invariant
            i <= len == chars@.len(),
            chars@ == text@,
            is_c == is_char(c),
            n == chars@.take(i as int).filter(is_c).len(),
            n <= i,
        decreases len - i,
    {
        proof {
            assert(chars@.take(i + 1) =~= chars@.take(i as int).push(chars@[i as int]));
            chars@.take(i as int).lemma_filter_push(chars@[i as int], is_c);
        }
        if chars[i] == c {
            n += 1;
        }
        i += 1;
    }
    assert(chars@.take(len as int) =~= chars@);
    n
}

/// The digit `d` as a text of one character.
fn digit_text(d: u64) -> (r: &'static str)
    requires
        d < 10,
    ensures
        r@ == seq![digits()[d as int]],
{
    proof {
        reveal_strlit("0");
        reveal_strlit("1");
        reveal_strlit("2");
        reveal_strlit("3");
        reveal_strlit("4");
        reveal_strlit("5");
        reveal_strlit("6");
        reveal_strlit("7");
        reveal_strlit("8");
        reveal_strlit("9");
    }
    let r = if d == 0 {
        "0"
    } else if d == 1 {
        "1"
    } else if d == 2 {
        "2"
    } else if d == 3 {
        "3"
    } else if d == 4 {
        "4"
    } else if d == 5 {
        "5"
    } else if d == 6 {
        "6"
    } else if d == 7 {
        "7"
    } else if d == 8 {
        "8"
    } else {
        "9"
    };
    assert(r@ =~= seq![digits()[d as int]]);
    r
}

/// Writes a natural number in decimal digits at the end of `out`.
fn push_digits(out: &mut String, n: u64)
    ensures
        final(out)@ == old(out)@ + digits_of(n as nat),
    decreases n,
{
    if n >= 10 {
        push_digits(out, n / 10);
    }
    out.append(digit_text(n % 10));
}

/// An integer written in decimal digits.
pub fn decimal(n: i64) -> (r: String)
    ensures
        r@ == decimal_of(n as int),
{
    let mut r = String::new();
    if n < 0 {
        proof {
            reveal_strlit("-");
        }
        r.append("-");
        assert(r@ =~= seq!['-']);
        let m: u64 = (-(n + 1)) as u64 + 1;
        push_digits(&mut r, m);
    } else {
        push_digits(&mut r, n as u64);
        assert(r@ =~= digits_of(n as nat));
    }
    r
}

} // verus!
