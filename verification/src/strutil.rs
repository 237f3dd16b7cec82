//! Character-level string utilities: equality, prefix test, character and
//! substring search, and whitespace trimming, each with an exact
//! specification.

use vstd::prelude::*;

verus! {

/// ASCII whitespace, as it appears in the line-oriented texts parsed here.
pub open spec fn is_space(c: char) -> bool {
    c == ' ' || c == '\t' || c == '\n' || c == '\r' || c == '\u{b}' || c == '\u{c}'
}

/// Index of the first occurrence of `c` at or after `i`, or the length.
pub open spec fn find_ch(s: Seq<char>, c: char, i: int) -> int
    decreases s.len() - i,
{
    if i < 0 || i >= s.len() {
        s.len() as int
    } else if s[i] == c {
        i
    } else {
        find_ch(s, c, i + 1)
    }
}

/// Index of the first non-whitespace character at or after `i`, or the length.
pub open spec fn find_nonspace(s: Seq<char>, i: int) -> int
    decreases s.len() - i,
{
    if i < 0 || i >= s.len() {
        s.len() as int
    } else if !is_space(s[i]) {
        i
    } else {
        find_nonspace(s, i + 1)
    }
}

/// Index of the first whitespace character at or after `i`, or the length.
pub open spec fn find_space(s: Seq<char>, i: int) -> int
    decreases s.len() - i,
{
    if i < 0 || i >= s.len() {
        s.len() as int
    } else if is_space(s[i]) {
        i
    } else {
        find_space(s, i + 1)
    }
}

/// One past the last non-whitespace character, or 0 for all-space text.
pub open spec fn trim_end_idx(s: Seq<char>) -> int
    decreases s.len(),
{
    if s.len() == 0 {
        0
    } else if is_space(s.last()) {
        trim_end_idx(s.drop_last())
    } else {
        s.len() as int
    }
}

/// The text with leading and trailing whitespace removed.
pub open spec fn trim_of(s: Seq<char>) -> Seq<char> {
    let a = find_nonspace(s, 0);
    let b = trim_end_idx(s);
    if a >= b {
        Seq::empty()
    } else {
        s.subrange(a, b)
    }
}

/// Index of the first occurrence of `pat` at or after `i`, or the length.
pub open spec fn find_sub(s: Seq<char>, pat: Seq<char>, i: int) -> int
    decreases s.len() - i,
{
    if i < 0 || pat.len() <= 0 || i + pat.len() > s.len() {
        s.len() as int
    } else if s.subrange(i, i + pat.len()) == pat {
        i
    } else {
        find_sub(s, pat, i + 1)
    }
}

/// Character-for-character string equality.
pub fn str_eq(a: &str, b: &str) -> (r: bool)
    ensures
        r == (a@ == b@),
{
    let la = a.unicode_len();
    let lb = b.unicode_len();
    if la != lb {
        assert(a@ != b@);
        return false;
    }
    let mut i: usize = 0;
    while i < la
        invariant
            la == a@.len() && la == b@.len(),
            0 <= i <= la,
            forall|k: int| 0 <= k < i ==> a@[k] == b@[k],
        decreases la - i,
    {
        if a.get_char(i) != b.get_char(i) {
            return false;
        }
        i = i + 1;
    }
    proof {
        assert(a@ =~= b@);
    }
    true
}

/// Whether `p` is a prefix of `s`.
pub fn starts_with(s: &str, p: &str) -> (r: bool)
    ensures
        r == p@.is_prefix_of(s@),
{
    let ls = s.unicode_len();
    let lp = p.unicode_len();
    if lp > ls {
        return false;
    }
    let mut i: usize = 0;
    while i < lp
        invariant
            lp == p@.len() && ls == s@.len() && lp <= ls,
            0 <= i <= lp,
            forall|k: int| 0 <= k < i ==> s@[k] == p@[k],
        decreases lp - i,
    {
        if s.get_char(i) != p.get_char(i) {
            return false;
        }
        i = i + 1;
    }
    proof {
        assert(s@.subrange(0, lp as int) =~= p@);
    }
    true
}

/// Finds the first occurrence of the character `c` at or after `from`.
pub fn find_char_at(s: &str, c: char, from: usize) -> (r: usize)
    requires
        from <= s@.len(),
    ensures
        r == find_ch(s@, c, from as int),
        from <= r <= s@.len(),
{
    let n = s.unicode_len();
    let mut i = from;
    while i < n
        invariant
            from <= i <= n == s@.len(),
            find_ch(s@, c, from as int) == find_ch(s@, c, i as int),
        decreases n - i,
    {
        if s.get_char(i) == c {
            return i;
        }
        assert(find_ch(s@, c, i as int) == find_ch(s@, c, i + 1 as int));
        i = i + 1;
    }
    i
}

/// Whether the character occurs anywhere in the text.
pub fn has_char(s: &str, c: char) -> (r: bool)
    ensures
        r == (find_ch(s@, c, 0) < s@.len()),
        find_ch(s@, c, 0) <= s@.len(),
{
    let n = s.unicode_len();
    let i = find_char_at(s, c, 0);
    i < n
}

/// Finds the first non-whitespace character at or after `from`.
pub fn find_nonspace_at(s: &str, from: usize) -> (r: usize)
    requires
        from <= s@.len(),
    ensures
        r == find_nonspace(s@, from as int),
        from <= r <= s@.len(),
{
    let n = s.unicode_len();
    let mut i = from;
    while i < n
        invariant
            from <= i <= n == s@.len(),
            find_nonspace(s@, from as int) == find_nonspace(s@, i as int),
        decreases n - i,
    {
        let c = s.get_char(i);
        if !(c == ' ' || c == '\t' || c == '\n' || c == '\r' || c == '\u{b}' || c == '\u{c}') {
            return i;
        }
        assert(find_nonspace(s@, i as int) == find_nonspace(s@, i + 1 as int));
        i = i + 1;
    }
    i
}

/// Finds the first whitespace character at or after `from`.
pub fn find_space_at(s: &str, from: usize) -> (r: usize)
    requires
        from <= s@.len(),
    ensures
        r == find_space(s@, from as int),
        from <= r <= s@.len(),
    decreases s@.len() - from,
{
    let n = s.unicode_len();
    let mut i = from;
    while i < n
        invariant
            from <= i <= n == s@.len(),
            find_space(s@, from as int) == find_space(s@, i as int),
        decreases n - i,
    {
        let c = s.get_char(i);
        if c == ' ' || c == '\t' || c == '\n' || c == '\r' || c == '\u{b}' || c == '\u{c}' {
            return i;
        }
        assert(find_space(s@, i as int) == find_space(s@, i + 1 as int));
        i = i + 1;
    }
    i
}

proof fn lemma_trim_end_bounds(s: Seq<char>)
    ensures
        0 <= trim_end_idx(s) <= s.len(),
        trim_end_idx(s) > 0 ==> !is_space(s[trim_end_idx(s) - 1]),
        forall|k: int| trim_end_idx(s) <= k < s.len() ==> is_space(#[trigger] s[k]),
    decreases s.len(),
{
    if s.len() > 0 && is_space(s.last()) {
        lemma_trim_end_bounds(s.drop_last());
        assert(forall|k: int| 0 <= k < s.len() - 1 ==> s[k] == s.drop_last()[k]);
    }
}

/// Scans backward for one past the last non-whitespace character.
fn trim_end_at(s: &str) -> (r: usize)
    ensures
        r == trim_end_idx(s@),
{
    let n = s.unicode_len();
    let mut i = n;
    proof {
        assert(s@.take(i as int) =~= s@);
    }
    while i > 0
        invariant
            0 <= i <= n == s@.len(),
            trim_end_idx(s@) == trim_end_idx(s@.take(i as int)),
        decreases i,
    {
        let c = s.get_char(i - 1);
        proof {
            assert(s@.take(i as int).last() == s@[i - 1]);
        }
        if !(c == ' ' || c == '\t' || c == '\n' || c == '\r' || c == '\u{b}' || c == '\u{c}') {
            return i;
        }
        assert(s@.take(i as int).drop_last() =~= s@.take(i - 1));
        i = i - 1;
    }
    assert(s@.take(0) =~= Seq::<char>::empty());
    0
}

/// The text with leading and trailing whitespace removed.
pub fn trim(s: &str) -> (r: String)
    ensures
        r@ == trim_of(s@),
{
    let a = find_nonspace_at(s, 0);
    let b = trim_end_at(s);
    proof {
        lemma_trim_end_bounds(s@);
    }
    if a >= b {
        proof {
            assert(trim_of(s@) =~= Seq::<char>::empty());
        }
        String::new()
    } else {
        let t = s.substring_char(a, b);
        assert(t@ =~= trim_of(s@));
        t.to_owned()
    }
}

/// Whether `pat` occurs at exactly position `i`.
fn match_at(s: &str, pat: &str, i: usize) -> (r: bool)
    requires
        i + pat@.len() <= s@.len(),
    ensures
        r == (s@.subrange(i as int, i + pat@.len()) == pat@),
{
    let n = s.unicode_len();
    let lp = pat.unicode_len();
    let mut k: usize = 0;
    while k < lp
        invariant
            i + lp <= n == s@.len(),
            lp == pat@.len(),
            0 <= k <= lp,
            forall|t: int| 0 <= t < k ==> s@[i + t] == pat@[t],
        decreases lp - k,
    {
        if s.get_char(i + k) != pat.get_char(k) {
            proof {
                assert(s@.subrange(i as int, i + lp as int)[k as int] == s@[i + k]);
            }
            return false;
        }
        k = k + 1;
    }
    proof {
        assert(s@.subrange(i as int, i + lp as int) =~= pat@);
    }
    true
}

/// Finds the first occurrence of `pat` at or after `from`.
pub fn find_sub_at(s: &str, pat: &str, from: usize) -> (r: usize)
    requires
        from <= s@.len(),
    ensures
        r == find_sub(s@, pat@, from as int),
        from <= r <= s@.len(),
        r < s@.len() ==> r + pat@.len() <= s@.len(),
{
    let n = s.unicode_len();
    let lp = pat.unicode_len();
    if lp == 0 || lp > n {
        return n;
    }
    let mut i = from;
    while i <= n - lp
        invariant
            from <= i <= n == s@.len(),
            0 < lp <= n,
            lp == pat@.len(),
            find_sub(s@, pat@, from as int) == find_sub(s@, pat@, i as int),
        decreases n - i,
    {
        if match_at(s, pat, i) {
            return i;
        }
        proof {
            assert(find_sub(s@, pat@, i as int) == find_sub(s@, pat@, i + 1 as int));
        }
        i = i + 1;
    }
    proof {
        assert(find_sub(s@, pat@, i as int) == s@.len());
    }
    n
}

} // verus!
