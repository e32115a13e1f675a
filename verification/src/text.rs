//! Character-level helpers: ASCII case folding, case-insensitive
//! substring matching, and whitespace trimming over character sequences.

use vstd::prelude::*;

verus! {

/// Codepoint of a character with an ASCII uppercase letter folded to
/// its lowercase form; every other character maps to its own codepoint.
pub open spec fn fold_char(c: char) -> int {
    if 65 <= c as u32 && c as u32 <= 90 {
        (c as u32) + 32
    } else {
        c as u32 as int
    }
}

/// Two characters are equal up to ASCII case.
pub open spec fn chars_eq_ci(a: char, b: char) -> bool {
    fold_char(a) == fold_char(b)
}

/// `needle` occurs in `hay` at position `i`, comparing characters up to
/// ASCII case.
pub open spec fn matches_at(hay: Seq<char>, needle: Seq<char>, i: int) -> bool {
    &&& 0 <= i
    &&& i + needle.len() <= hay.len()
    &&& forall|k: int| 0 <= k < needle.len() ==> chars_eq_ci(hay[i + k], needle[k])
}

/// `needle` occurs somewhere in `hay`, up to ASCII case.
pub open spec fn contains_ci(hay: Seq<char>, needle: Seq<char>) -> bool {
    exists|i: int| matches_at(hay, needle, i)
}

/// The empty needle occurs in every haystack.
pub proof fn lemma_contains_ci_empty(hay: Seq<char>, needle: Seq<char>)
    requires
        needle.len() == 0,
    ensures
        contains_ci(hay, needle),
{
    assert(matches_at(hay, needle, 0));
}

/// Two needles equal up to ASCII case occur at exactly the same
/// places of every haystack.
pub proof fn lemma_contains_ci_fold(hay: Seq<char>, n1: Seq<char>, n2: Seq<char>)
    requires
        n1.len() == n2.len(),
        forall|k: int| 0 <= k < n1.len() ==> chars_eq_ci(n1[k], n2[k]),
    ensures
        contains_ci(hay, n1) == contains_ci(hay, n2),
{
    assert forall|i: int| matches_at(hay, n1, i) == matches_at(hay, n2, i) by {
        if matches_at(hay, n1, i) {
            assert forall|k: int| 0 <= k < n2.len() implies chars_eq_ci(hay[i + k], n2[k]) by {
                assert(chars_eq_ci(hay[i + k], n1[k]));
            }
        }
        if matches_at(hay, n2, i) {
            assert forall|k: int| 0 <= k < n1.len() implies chars_eq_ci(hay[i + k], n1[k]) by {
                assert(chars_eq_ci(hay[i + k], n2[k]));
            }
        }
    }
    if contains_ci(hay, n1) {
        let i = choose|i: int| matches_at(hay, n1, i);
        assert(matches_at(hay, n2, i));
    }
    if contains_ci(hay, n2) {
        let i = choose|i: int| matches_at(hay, n2, i);
        assert(matches_at(hay, n1, i));
    }
}

fn char_eq_ci(a: char, b: char) -> (r: bool)
    ensures
        r == chars_eq_ci(a, b),
{
    let ua = a as u32;
    let ub = b as u32;
    let la: u32 = if 65 <= ua && ua <= 90 {
        ua + 32
    } else {
        ua
    };
    let lb: u32 = if 65 <= ub && ub <= 90 {
        ub + 32
    } else {
        ub
    };
    la == lb
}

fn match_at(hay: &str, needle: &str, i: usize, n: usize) -> (r: bool)
    requires
        n == needle@.len(),
        i + n <= hay@.len(),
        i + n <= usize::MAX,
    ensures
        r == matches_at(hay@, needle@, i as int),
{
    let mut k: usize = 0;
    while k < n
        invariant
            k <= n,
            n == needle@.len(),
            i + n <= hay@.len(),
            i + n <= usize::MAX,
            forall|j: int| 0 <= j < k ==> chars_eq_ci(hay@[i + j], needle@[j]),
        decreases n - k,
    {
        if !char_eq_ci(hay.get_char(i + k), needle.get_char(k)) {
            return false;
        }
        k += 1;
    }
    true
}

/// Whether `needle` occurs in `hay` up to ASCII case, scanning every
/// starting position.
pub fn str_contains_ci(hay: &str, needle: &str) -> (r: bool)
    ensures
        r == contains_ci(hay@, needle@),
{
    let h = hay.unicode_len();
    let n = needle.unicode_len();
    if n > h {
        assert(!contains_ci(hay@, needle@));
        return false;
    }
    let mut i: usize = 0;
    while i <= h - n
        invariant
            n <= h,
            h == hay@.len(),
            n == needle@.len(),
            i <= h - n + 1,
            forall|p: int| 0 <= p < i ==> !matches_at(hay@, needle@, p),
        decreases h - n + 1 - i,
    {
        if match_at(hay, needle, i, n) {
            return true;
        }
        i += 1;
    }
    assert forall|p: int| !matches_at(hay@, needle@, p) by {
        if 0 <= p <= h - n {
            assert(!matches_at(hay@, needle@, p));
        }
    }
    false
}

/// A character with Unicode's white-space property.
pub open spec fn is_space_char(c: char) -> bool {
    ||| c == ' '
    ||| c == '\t'
    ||| c == '\n'
    ||| c == '\r'
    ||| c == '\u{b}'
    ||| c == '\u{c}'
    ||| c == '\u{85}'
    ||| c == '\u{a0}'
    ||| c == '\u{1680}'
    ||| c == '\u{2000}'
    ||| c == '\u{2001}'
    ||| c == '\u{2002}'
    ||| c == '\u{2003}'
    ||| c == '\u{2004}'
    ||| c == '\u{2005}'
    ||| c == '\u{2006}'
    ||| c == '\u{2007}'
    ||| c == '\u{2008}'
    ||| c == '\u{2009}'
    ||| c == '\u{200a}'
    ||| c == '\u{2028}'
    ||| c == '\u{2029}'
    ||| c == '\u{202f}'
    ||| c == '\u{205f}'
    ||| c == '\u{3000}'
}

pub fn is_space(c: char) -> (r: bool)
    ensures
        r == is_space_char(c),
{
    c == ' ' || c == '\t' || c == '\n' || c == '\r' || c == '\u{b}' || c == '\u{c}' || c == '\u{85}'
        || c == '\u{a0}' || c == '\u{1680}' || c == '\u{2000}' || c == '\u{2001}' || c == '\u{2002}'
        || c == '\u{2003}' || c == '\u{2004}' || c == '\u{2005}' || c == '\u{2006}' || c == '\u{2007}'
        || c == '\u{2008}' || c == '\u{2009}' || c == '\u{200a}' || c == '\u{2028}' || c == '\u{2029}'
        || c == '\u{202f}' || c == '\u{205f}' || c == '\u{3000}'
}

/// The sequence with its leading white space removed.
pub open spec fn trim_start(s: Seq<char>) -> Seq<char>
    decreases s.len(),
{
    if s.len() > 0 && is_space_char(s[0]) {
        trim_start(s.drop_first())
    } else {
        s
    }
}

/// The sequence with its trailing white space removed.
pub open spec fn trim_end(s: Seq<char>) -> Seq<char>
    decreases s.len(),
{
    if s.len() > 0 && is_space_char(s.last()) {
        trim_end(s.drop_last())
    } else {
        s
    }
}

/// The sequence with white space removed at both ends.
pub open spec fn trim(s: Seq<char>) -> Seq<char> {
    trim_end(trim_start(s))
}

/// If the first `a` characters are white space and the next one is not,
/// trimming the start drops exactly those `a` characters.
pub proof fn lemma_trim_start_is_skip(s: Seq<char>, a: int)
    requires
        0 <= a <= s.len(),
        forall|k: int| 0 <= k < a ==> is_space_char(s[k]),
        a == s.len() || !is_space_char(s[a]),
    ensures
        trim_start(s) == s.subrange(a, s.len() as int),
    decreases a,
{
    if a == 0 {
        assert(trim_start(s) =~= s.subrange(0, s.len() as int));
    } else {
        let d = s.drop_first();
        assert(forall|k: int| 0 <= k < a - 1 ==> is_space_char(d[k]));
        lemma_trim_start_is_skip(d, a - 1);
        assert(d.subrange(a - 1, d.len() as int) =~= s.subrange(a, s.len() as int));
    }
}

/// If the characters from `b` on are white space and the one before `b`
/// is not, trimming the end keeps exactly the first `b` characters.
pub proof fn lemma_trim_end_is_take(s: Seq<char>, b: int)
    requires
        0 <= b <= s.len(),
        forall|k: int| b <= k < s.len() ==> is_space_char(s[k]),
        b == 0 || !is_space_char(s[b - 1]),
    ensures
        trim_end(s) == s.subrange(0, b),
    decreases s.len() - b,
{
    if b == s.len() {
        assert(trim_end(s) =~= s.subrange(0, b));
    } else {
        let d = s.drop_last();
        assert(is_space_char(s.last()));
        lemma_trim_end_is_take(d, b);
        assert(d.subrange(0, b) =~= s.subrange(0, b));
    }
}

} // verus!
