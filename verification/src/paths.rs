//! Path normalization and lexical path arithmetic.
//!
//! A resolved path is an absolute, lexically normalized string: the identity
//! key for deduplication.  Normalization itself is delegated to an outside
//! routine; the parent directory and the file name of a normalized path are
//! computed lexically here.

use vstd::prelude::*;

verus! {

/// What normalizing `path` against the absolute directory `reference`
/// returns: an absolute path with `.` and `..` collapsed lexically, no
/// filesystem access and no symlink following.
pub uninterp spec fn absolutize_of(path: Seq<char>, reference: Seq<char>) -> Seq<char>;

/// Relies on `path_absolutize::Absolutize::absolutize_from`, which computes
/// an absolutized, lexically normalized path from the path and the reference
/// directory alone, without touching the filesystem.
#[verifier::external_body]
fn absolutize(path: &str, reference: &str) -> (r: String)
    ensures
        r@ == absolutize_of(path@, reference@),
{
    let p = std::path::Path::new(path);
    let a = path_absolutize::Absolutize::absolutize_from(p, std::path::Path::new(reference));
    a.to_string_lossy().into_owned()
}

/// Converts a raw path plus a reference directory into the absolute,
/// lexically normalized form used as the deduplication key.
pub fn resolve_path(path: &str, reference: &str) -> (r: String)
    ensures
        r@ == absolutize_of(path@, reference@),
{
    absolutize(path, reference)
}

/// Index of the last `/` in `s`, or `-1` if there is none.
pub open spec fn last_slash(s: Seq<char>) -> int
    decreases s.len(),
{
    if s.len() == 0 {
        -1
    } else if s.last() == '/' {
        s.len() - 1
    } else {
        last_slash(s.drop_last())
    }
}

/// The lexical parent of a normalized path: the text before the last `/`
/// (the root keeps its single `/`).  The root itself, the empty string and
/// a path with no `/` at all have no parent.
pub open spec fn parent_of(p: Seq<char>) -> Option<Seq<char>> {
    let i = last_slash(p);
    if p.len() <= 1 || i < 0 {
        None
    } else if i == 0 {
        Some(p.take(1))
    } else {
        Some(p.take(i))
    }
}

/// The lexical file name of a normalized path: the text after the last `/`,
/// or the whole text when there is none.
pub open spec fn file_name_of(p: Seq<char>) -> Seq<char> {
    p.skip(last_slash(p) + 1)
}

proof fn lemma_last_slash_bounds(s: Seq<char>)
    ensures
        -1 <= last_slash(s) < s.len(),
    decreases s.len(),
{
    if s.len() > 0 && s.last() != '/' {
        lemma_last_slash_bounds(s.drop_last());
    }
}

/// Finds the index one past the last `/`, or 0 when there is none.
fn scan_last_slash(p: &str) -> (r: usize)
    ensures
        r == last_slash(p@) + 1,
{
    let n = p.unicode_len();
    let mut i = n;
    assert(p@.take(i as int) =~= p@);
    while i > 0
        invariant
            0 <= i <= n == p@.len(),
            last_slash(p@) == last_slash(p@.take(i as int)),
        decreases i,
    {
        if s_char(p, i - 1) == '/' {
            assert(p@.take(i as int).last() == p@[i - 1]);
            return i;
        }
        assert(p@.take(i as int).drop_last() =~= p@.take(i - 1));
        i = i - 1;
    }
    assert(p@.take(0) =~= Seq::<char>::empty());
    0
}

/// Reads one character; a separate name keeps call sites uniform.
fn s_char(p: &str, i: usize) -> (c: char)
    requires
        i < p@.len(),
    ensures
        c == p@[i as int],
{
    p.get_char(i)
}

/// The lexical parent directory of a normalized path, if it has one.
pub fn parent_dir(p: &str) -> (r: Option<String>)
    ensures
        r.deep_view() == parent_of(p@),
{
    proof {
        lemma_last_slash_bounds(p@);
    }
    let n = p.unicode_len();
    let j = scan_last_slash(p);
    if n <= 1 || j == 0 {
        assert(parent_of(p@) is None);
        None
    } else if j == 1 {
        let d = p.substring_char(0, 1);
        assert(d@ =~= p@.take(1));
        Some(d.to_owned())
    } else {
        let d = p.substring_char(0, j - 1);
        assert(d@ =~= p@.take(j - 1));
        Some(d.to_owned())
    }
}

/// The lexical file name of a normalized path.
pub fn file_name(p: &str) -> (r: String)
    ensures
        r@ == file_name_of(p@),
{
    proof {
        lemma_last_slash_bounds(p@);
    }
    let n = p.unicode_len();
    let j = scan_last_slash(p);
    let d = p.substring_char(j, n);
    assert(d@ =~= p@.skip(j as int));
    d.to_owned()
}

} // verus!
