//! Title extraction: the first heading line of a markdown text, with
//! the heading marker stripped and surrounding white space trimmed.

use vstd::prelude::*;
use crate::text::{is_space, is_space_char, trim, trim_end, trim_start};
use crate::text::{lemma_trim_end_is_take, lemma_trim_start_is_skip};

verus! {

/// Index of the first line feed in `s`, or `s.len()` when there is none.
pub open spec fn eol_index(s: Seq<char>) -> int
    decreases s.len(),
{
    if s.len() == 0 {
        0
    } else if s[0] == '\n' {
        0
    } else {
        1 + eol_index(s.drop_first())
    }
}

/// `eol_index` stays within the sequence.
pub proof fn lemma_eol_index_range(s: Seq<char>)
    ensures
        0 <= eol_index(s) <= s.len(),
    decreases s.len(),
{
    if s.len() > 0 && s[0] != '\n' {
        lemma_eol_index_range(s.drop_first());
    }
}

/// `eol_index` is the first position holding a line feed, or the length.
pub proof fn lemma_eol_index(s: Seq<char>, j: int)
    requires
        0 <= j <= s.len(),
        forall|k: int| 0 <= k < j ==> s[k] != '\n',
        j == s.len() || s[j] == '\n',
    ensures
        eol_index(s) == j,
    decreases s.len(),
{
    if s.len() > 0 && s[0] != '\n' {
        let d = s.drop_first();
        assert(forall|k: int| 0 <= k < j - 1 ==> d[k] == s[k + 1]);
        lemma_eol_index(d, j - 1);
    }
}

/// The title the fallback placeholder names.
pub open spec fn untitled() -> Seq<char> {
    "Untitled"@
}

/// The extracted title of a markdown text: the first line beginning
/// with a single heading marker — a `#` not followed by another `#` —
/// with the marker stripped and white space trimmed at both ends; a
/// line led by more than one marker supplies no title, and the
/// placeholder applies when no qualifying line exists.
pub open spec fn spec_title(s: Seq<char>) -> Seq<char>
    decreases s.len(),
    via spec_title_dec
{
    if s.len() == 0 {
        untitled()
    } else {
        let e = eol_index(s);
        if e > 0 && s[0] == '#' && (e == 1 || s[1] != '#') {
            trim(s.subrange(1, e))
        } else if e == s.len() {
            untitled()
        } else {
            spec_title(s.subrange(e + 1, s.len() as int))
        }
    }
}

#[via_fn]
proof fn spec_title_dec(s: Seq<char>) {
    lemma_eol_index_range(s);
}

fn line_end(s: &str, from: usize, n: usize) -> (j: usize)
    requires
        from <= n,
        n == s@.len(),
    ensures
        from <= j <= n,
        forall|k: int| from <= k < j ==> s@[k] != '\n',
        j < n ==> s@[j as int] == '\n',
{
    let mut j = from;
    while j < n
        invariant
            from <= j <= n,
            n == s@.len(),
            forall|k: int| from <= k < j ==> s@[k] != '\n',
        decreases n - j,
    {
        if s.get_char(j) == '\n' {
            return j;
        }
        j += 1;
    }
    j
}

fn scan_space_fwd(s: &str, from: usize, to: usize) -> (a: usize)
    requires
        from <= to <= s@.len(),
    ensures
        from <= a <= to,
        forall|k: int| from <= k < a ==> is_space_char(s@[k]),
        a < to ==> !is_space_char(s@[a as int]),
{
    let mut a = from;
    while a < to
        invariant
            from <= a <= to,
            to <= s@.len(),
            forall|k: int| from <= k < a ==> is_space_char(s@[k]),
        decreases to - a,
    {
        if !is_space(s.get_char(a)) {
            return a;
        }
        a += 1;
    }
    a
}

fn scan_space_back(s: &str, from: usize, to: usize) -> (b: usize)
    requires
        from <= to <= s@.len(),
    ensures
        from <= b <= to,
        forall|k: int| b <= k < to ==> is_space_char(s@[k]),
        b > from ==> !is_space_char(s@[b - 1]),
{
    let mut b = to;
    while b > from
        invariant
            from <= b <= to,
            to <= s@.len(),
            forall|k: int| b <= k < to ==> is_space_char(s@[k]),
        decreases b,
    {
        if !is_space(s.get_char(b - 1)) {
            return b;
        }
        b -= 1;
    }
    b
}

/// Extract the display title from a markdown text: the first line
/// starting with a single `#` gives the title, the marker stripped
/// and both ends trimmed; otherwise the fixed placeholder.
#[verifier::loop_isolation(false)]
pub fn extract_title(content: &str) -> (t: String)
    ensures
        t@ == spec_title(content@),
{
    let n = content.unicode_len();
    proof {
        assert(content@.subrange(0, n as int) =~= content@);
    }
    let mut i: usize = 0;
    loop
        invariant
            i <= n,
            n == content@.len(),
            spec_title(content@) == spec_title(content@.subrange(i as int, n as int)),
        decreases n - i,
    {
        let ghost rest = content@.subrange(i as int, n as int);
        let j = line_end(content, i, n);
        proof {
            assert(forall|k: int| 0 <= k < j - i ==> rest[k] == content@[k + i]);
            lemma_eol_index(rest, j - i);
        }
        if j > i && content.get_char(i) == '#' && (j == i + 1 || content.get_char(i + 1) != '#') {
            let a = scan_space_fwd(content, i + 1, j);
            let b = scan_space_back(content, a, j);
            let piece = content.substring_char(a, b);
            let t = piece.to_owned();
            proof {
                let line = rest.subrange(1, j - i);
                assert(rest[0] == '#');
                assert(spec_title(rest) == trim(line));
                assert(line =~= content@.subrange(i + 1, j as int));
                lemma_trim_start_is_skip(line, a - (i + 1));
                assert(trim_start(line) =~= content@.subrange(a as int, j as int));
                let mid = content@.subrange(a as int, j as int);
                lemma_trim_end_is_take(mid, b - a);
                assert(trim_end(mid) =~= content@.subrange(a as int, b as int));
                assert(t@ == spec_title(content@));
            }
            return t;
        }
        if j == n {
            let t = "Untitled".to_owned();
            proof {
                assert(eol_index(rest) == n - i);
                assert(spec_title(rest) == untitled());
            }
            return t;
        }
        proof {
            assert(spec_title(rest) == spec_title(rest.subrange(j - i + 1, rest.len() as int)));
            assert(rest.subrange(j - i + 1, rest.len() as int) =~= content@.subrange(
                j + 1,
                n as int,
            ));
        }
        i = j + 1;
    }
}

} // verus!
