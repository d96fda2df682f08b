//! Character-level text operations used by the store: decoding a string
//! into its characters, substring search, lexicographic order and
//! lower-casing.

use vstd::prelude::*;

verus! {

broadcast use vstd::string::axiom_spec_iter;

/// `needle` occurs in `hay` as a contiguous run of characters.
pub open spec fn is_substring(needle: Seq<char>, hay: Seq<char>) -> bool {
    exists|i: int|
        0 <= i && i + needle.len() <= hay.len() && #[trigger] hay.subrange(i, i + needle.len())
            == needle
}

/// The characters of `s`, in order.
pub fn chars_of(s: &str) -> (r: Vec<char>)
    ensures
        r@ == s@,
{
    let mut r: Vec<char> = Vec::new();
    for c in it: s.chars()
        invariant
            it.seq() == s@,
            r@ == it.seq().take(it.index()),
    {
        proof {
            assert(it.seq().take(it.index() + 1) =~= it.seq().take(it.index()).push(c));
        }
        r.push(c);
    }
    assert(r@ =~= s@);
    r
}

/// Does `hay` hold `needle` at position `start`?
fn matches_at(hay: &Vec<char>, needle: &Vec<char>, start: usize) -> (r: bool)
    requires
        start + needle.len() <= hay.len(),
    ensures
        r == (hay@.subrange(start as int, start + needle.len()) == needle@),
{
    let m = needle.len();
    let mut j: usize = 0;
    while j < m
        invariant
            start + m <= hay.len(),
            m == needle.len(),
            j <= m,
            forall|k: int| 0 <= k < j ==> hay@[start + k] == needle@[k],
        decreases m - j,
    {
        if hay[start + j] != needle[j] {
            proof {
                assert(hay@.subrange(start as int, start + m)[j as int] != needle@[j as int]);
            }
            return false;
        }
        j = j + 1;
    }
    proof {
        assert(hay@.subrange(start as int, start + m) =~= needle@);
    }
    true
}

/// Substring test: `needle` occurs somewhere in `haystack` (the empty
/// needle occurs everywhere).
pub fn contains_substring(haystack: &str, needle: &str) -> (r: bool)
    ensures
        r == is_substring(needle@, haystack@),
{
    let hay = chars_of(haystack);
    let pat = chars_of(needle);
    let n = hay.len();
    let m = pat.len();
    if m > n {
        proof {
            assert forall|i: int|
                0 <= i && i + m <= n implies #[trigger] hay@.subrange(i, i + m) != pat@ by {}
        }
        return false;
    }
    if m == 0 {
        proof {
            assert(haystack@.subrange(0int, 0int + needle@.len()) =~= needle@);
        }
        return true;
    }
    let mut i: usize = 0;
    while i <= n - m
        invariant
            hay@ == haystack@,
            pat@ == needle@,
            n == hay.len(),
            m == pat.len(),
            1 <= m <= n,
            i <= n - m + 1,
            forall|k: int| 0 <= k < i ==> #[trigger] hay@.subrange(k, k + m) != pat@,
        decreases n + 1 - i,
    {
        if matches_at(&hay, &pat, i) {
            return true;
        }
        i = i + 1;
    }
    false
}

/// The characters of an optional text.
pub open spec fn str_opt(o: Option<&str>) -> Option<Seq<char>> {
    match o {
        Some(s) => Some(s@),
        None => None,
    }
}

/// The characters of an optional owned text.
pub open spec fn string_opt(o: Option<String>) -> Option<Seq<char>> {
    match o {
        Some(s) => Some(s@),
        None => None,
    }
}

/// Borrows the text of an optional string.
pub fn as_text(o: &Option<String>) -> (r: Option<&str>)
    ensures
        str_opt(r) == string_opt(*o),
{
    match o {
        Some(s) => Some(s.as_str()),
        None => None,
    }
}

/// Lexicographic order on character sequences, comparing code points; a
/// proper prefix comes first.  This is the order of `String`'s `Ord`.
pub open spec fn chars_less(a: Seq<char>, b: Seq<char>) -> bool
    decreases a.len(),
{
    if b.len() == 0 {
        false
    } else if a.len() == 0 {
        true
    } else if a[0] != b[0] {
        a[0] < b[0]
    } else {
        chars_less(a.drop_first(), b.drop_first())
    }
}

/// No sequence comes before itself, and two sequences are never each
/// before the other.
pub proof fn lemma_chars_less_asymmetric(a: Seq<char>, b: Seq<char>)
    ensures
        !(chars_less(a, b) && chars_less(b, a)),
        !chars_less(a, a),
    decreases a.len(),
{
    if a.len() > 0 && b.len() > 0 {
        lemma_chars_less_asymmetric(a.drop_first(), b.drop_first());
    }
    if a.len() > 0 {
        lemma_chars_less_asymmetric(a.drop_first(), a.drop_first());
    }
}

/// Lexicographic order is transitive.
pub proof fn lemma_chars_less_transitive(a: Seq<char>, b: Seq<char>, c: Seq<char>)
    requires
        chars_less(a, b),
        chars_less(b, c),
    ensures
        chars_less(a, c),
    decreases a.len(),
{
    if a.len() > 0 && b.len() > 0 && c.len() > 0 && a[0] == b[0] && b[0] == c[0] {
        lemma_chars_less_transitive(a.drop_first(), b.drop_first(), c.drop_first());
    }
}

/// Any two different sequences are ordered one way or the other.
pub proof fn lemma_chars_less_total(a: Seq<char>, b: Seq<char>)
    requires
        a != b,
    ensures
        chars_less(a, b) || chars_less(b, a),
    decreases a.len(),
{
    if a.len() == 0 {
        assert(b.len() != 0) by {
            if b.len() == 0 {
                assert(a =~= b);
            }
        }
    } else if b.len() == 0 {
    } else if a[0] == b[0] {
        if a.drop_first() =~= b.drop_first() {
            assert(a =~= b) by {
                assert forall|i: int| 0 <= i < a.len() implies a[i] == b[i] by {
                    if i > 0 {
                        assert(a[i] == a.drop_first()[i - 1]);
                        assert(b[i] == b.drop_first()[i - 1]);
                    }
                }
            }
        }
        lemma_chars_less_total(a.drop_first(), b.drop_first());
    } else {
    }
}

/// Exact lexicographic comparison of two character vectors.
pub fn chars_less_exec(a: &Vec<char>, b: &Vec<char>) -> (r: bool)
    ensures
        r == chars_less(a@, b@),
{
    let mut i: usize = 0;
    proof {
        assert(a@.skip(0) =~= a@);
        assert(b@.skip(0) =~= b@);
    }
    while i < a.len() && i < b.len()
        invariant
            i <= a.len(),
            i <= b.len(),
            chars_less(a@, b@) == chars_less(a@.skip(i as int), b@.skip(i as int)),
        decreases a.len() - i,
    {
        let x = a[i];
        let y = b[i];
        if x != y {
            return x < y;
        }
        proof {
            assert(a@.skip(i as int).drop_first() =~= a@.skip(i + 1));
            assert(b@.skip(i as int).drop_first() =~= b@.skip(i + 1));
        }
        i = i + 1;
    }
    i < b.len()
}

/// The ASCII lower case of a character: `A`-`Z` become `a`-`z`, every
/// other character stays.
pub open spec fn ascii_lower_char(c: char) -> char {
    if 'A' <= c && c <= 'Z' {
        ((c as int) + 32) as char
    } else {
        c
    }
}

/// Each character of `s` in ASCII lower case.
pub open spec fn ascii_lowercase(s: Seq<char>) -> Seq<char> {
    Seq::new(s.len(), |i: int| ascii_lower_char(s[i]))
}

/// Unicode lower-casing as the standard library's `str::to_lowercase`
/// computes it.
pub uninterp spec fn lowercase(s: Seq<char>) -> Seq<char>;

/// Calls `str::to_lowercase`; the result's characters are `lowercase` of
/// the input's characters.  On ASCII text the result is the text with
/// `A`-`Z` turned into `a`-`z`, character by character (Unicode maps those
/// letters so and leaves every other ASCII character as it is).  What
/// `lowercase` is on other characters (the Unicode case tables) is not
/// stated.
#[verifier::external_body]
pub(crate) fn to_lowercase(s: &str) -> (r: String)
    ensures
        r@ == lowercase(s@),
        vstd::utf8::is_ascii_chars(s@) ==> r@ == ascii_lowercase(s@),
{
    s.to_lowercase()
}

} // verus!
