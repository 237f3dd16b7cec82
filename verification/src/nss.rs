//! The C-library NSS extension resolver's computable parts: parsing the
//! NSS configuration into the distinct handler set, building the candidate
//! module file names for each handler, extracting the C-library version
//! from its banner line, and assembling the discovered references.

use vstd::prelude::*;

verus! {

use crate::strutil::{
    find_ch,
    find_nonspace,
    find_space,
    find_char_at,
    find_nonspace_at,
    find_space_at,
};
use crate::version::{Version, version_of};

/// Bounds of the character search: the result lies between the start
/// index and the length.
pub proof fn lemma_find_ch_bounds(s: Seq<char>, c: char, i: int)
    requires
        0 <= i <= s.len(),
    ensures
        i <= find_ch(s, c, i) <= s.len(),
    decreases s.len() - i,
{
    if i < s.len() && s[i] != c {
        lemma_find_ch_bounds(s, c, i + 1);
    }
}

pub proof fn lemma_find_nonspace_bounds(s: Seq<char>, i: int)
    requires
        0 <= i <= s.len(),
    ensures
        i <= find_nonspace(s, i) <= s.len(),
        find_nonspace(s, i) < s.len() ==> !crate::strutil::is_space(s[find_nonspace(s, i)]),
    decreases s.len() - i,
{
    if i < s.len() && crate::strutil::is_space(s[i]) {
        lemma_find_nonspace_bounds(s, i + 1);
    }
}

pub proof fn lemma_find_space_bounds(s: Seq<char>, i: int)
    requires
        0 <= i <= s.len(),
    ensures
        i <= find_space(s, i) <= s.len(),
    decreases s.len() - i,
{
    if i < s.len() && !crate::strutil::is_space(s[i]) {
        lemma_find_space_bounds(s, i + 1);
    }
}

/// A line with a trailing carriage return loses it.
pub open spec fn strip_cr(l: Seq<char>) -> Seq<char> {
    if l.len() > 0 && l.last() == '\r' {
        l.drop_last()
    } else {
        l
    }
}

/// The lines of a text, split on newlines, carriage returns stripped.
pub open spec fn lines_from(s: Seq<char>, start: int) -> Seq<Seq<char>>
    decreases s.len() - start,
    when 0 <= start <= s.len()
    via lines_from_dec
{
    let e = find_ch(s, '\n', start);
    if e >= s.len() {
        seq![strip_cr(s.subrange(start, s.len() as int))]
    } else {
        seq![strip_cr(s.subrange(start, e))] + lines_from(s, e + 1)
    }
}

#[via_fn]
proof fn lines_from_dec(s: Seq<char>, start: int) {
    lemma_find_ch_bounds(s, '\n', start);
}

pub open spec fn lines_of(s: Seq<char>) -> Seq<Seq<char>> {
    lines_from(s, 0)
}

/// The whitespace-separated tokens of a line, scanning from `i`.
pub open spec fn ws_tokens_from(s: Seq<char>, i: int) -> Seq<Seq<char>>
    decreases s.len() - i,
    when 0 <= i <= s.len()
    via ws_tokens_from_dec
{
    let a = find_nonspace(s, i);
    if a >= s.len() {
        Seq::empty()
    } else {
        let b = find_space(s, a);
        seq![s.subrange(a, b)] + ws_tokens_from(s, b)
    }
}

#[via_fn]
proof fn ws_tokens_from_dec(s: Seq<char>, i: int) {
    lemma_find_nonspace_bounds(s, i);
    let a = find_nonspace(s, i);
    if a < s.len() {
        lemma_find_space_bounds(s, a + 1);
        assert(find_space(s, a) == find_space(s, a + 1));
    }
}

/// The handler names one token list contributes: the first token is the
/// service label and is skipped, tokens ending in `:` are skipped, and
/// each remaining token counts with any bracketed option suffix stripped,
/// when what is left is non-empty.
pub open spec fn handlers_in(toks: Seq<Seq<char>>, i: int) -> Seq<Seq<char>>
    decreases toks.len() - i,
{
    if i < 1 || i >= toks.len() {
        Seq::empty()
    } else {
        let t = toks[i];
        let rest = handlers_in(toks, i + 1);
        if t.len() > 0 && t.last() == ':' {
            rest
        } else {
            let h = t.take(find_ch(t, '[', 0));
            if h.len() > 0 {
                seq![h] + rest
            } else {
                rest
            }
        }
    }
}

/// The handler names one line contributes, its `#` comment stripped.
pub open spec fn line_handlers(line: Seq<char>) -> Seq<Seq<char>> {
    handlers_in(ws_tokens_from(line.take(find_ch(line, '#', 0)), 0), 1)
}

/// The handler names of all lines from `i` on, in order, with repetitions.
pub open spec fn all_handlers_from(lines: Seq<Seq<char>>, i: int) -> Seq<Seq<char>>
    decreases lines.len() - i,
{
    if i < 0 || i >= lines.len() {
        Seq::empty()
    } else {
        line_handlers(lines[i]) + all_handlers_from(lines, i + 1)
    }
}

/// Keeps the first occurrence of each name.
pub open spec fn dedup_from(acc: Seq<Seq<char>>, xs: Seq<Seq<char>>) -> Seq<Seq<char>>
    decreases xs.len(),
{
    if xs.len() == 0 {
        acc
    } else {
        dedup_from(
            if acc.contains(xs.first()) {
                acc
            } else {
                acc.push(xs.first())
            },
            xs.drop_first(),
        )
    }
}

/// The distinct handler names of a whole NSS configuration, in order of
/// first appearance.
pub open spec fn nss_handlers_of(content: Seq<char>) -> Seq<Seq<char>> {
    dedup_from(Seq::empty(), all_handlers_from(lines_of(content), 0))
}

/// Splits a text into lines.
fn split_lines(s: &str) -> (r: Vec<String>)
    ensures
        r.deep_view() == lines_of(s@),
{
    let n = s.unicode_len();
    let mut out: Vec<String> = Vec::new();
    let mut start: usize = 0;
    proof {
        assert(out.deep_view() + lines_from(s@, 0) =~= lines_from(s@, 0));
    }
    loop
        invariant
            0 <= start <= n == s@.len(),
            out.deep_view() + lines_from(s@, start as int) == lines_of(s@),
        decreases n - start,
    {
        let e = find_char_at(s, '\n', start);
        let e2 = if e > start && s.get_char(e - 1) == '\r' {
            e - 1
        } else {
            e
        };
        let piece = s.substring_char(start, e2);
        proof {
            if e < n {
                assert(strip_cr(s@.subrange(start as int, e as int)) =~= s@.subrange(
                    start as int,
                    e2 as int,
                ));
            } else {
                assert(strip_cr(s@.subrange(start as int, s@.len() as int)) =~= s@.subrange(
                    start as int,
                    e2 as int,
                ));
            }
        }
        let ghost o0 = out.deep_view();
        out.push(piece.to_owned());
        proof {
            assert(forall|t: int| 0 <= t < o0.len() ==> #[trigger] out.deep_view()[t] == o0[t]);
            assert(out.deep_view() =~= o0.push(s@.subrange(start as int, e2 as int)));
        }
        if e == n {
            proof {
                assert(lines_from(s@, start as int) =~= seq![
                    s@.subrange(start as int, e2 as int),
                ]);
                assert(out.deep_view() =~= o0 + lines_from(s@, start as int));
            }
            return out;
        }
        proof {
            assert(lines_from(s@, start as int) =~= seq![s@.subrange(start as int, e2 as int)]
                + lines_from(s@, e + 1));
            assert(out.deep_view() + lines_from(s@, e + 1) =~= o0 + lines_from(
                s@,
                start as int,
            ));
        }
        start = e + 1;
    }
}

/// Splits a line into its whitespace-separated tokens.
fn split_ws(s: &str) -> (r: Vec<String>)
    ensures
        r.deep_view() == ws_tokens_from(s@, 0),
{
    let n = s.unicode_len();
    let mut out: Vec<String> = Vec::new();
    let mut i: usize = 0;
    proof {
        assert(out.deep_view() + ws_tokens_from(s@, 0) =~= ws_tokens_from(s@, 0));
    }
    loop
        invariant
            0 <= i <= n == s@.len(),
            out.deep_view() + ws_tokens_from(s@, i as int) == ws_tokens_from(s@, 0),
        decreases n - i,
    {
        let a = find_nonspace_at(s, i);
        if a == n {
            proof {
                assert(ws_tokens_from(s@, i as int) =~= Seq::<Seq<char>>::empty());
                assert(out.deep_view() + Seq::<Seq<char>>::empty() =~= out.deep_view());
            }
            return out;
        }
        let b = find_space_at(s, a);
        proof {
            lemma_find_nonspace_bounds(s@, i as int);
            assert(!crate::strutil::is_space(s@[a as int]));
            assert(find_space(s@, a as int) == find_space(s@, a + 1 as int));
            lemma_find_space_bounds(s@, a + 1);
        }
        let tok = s.substring_char(a, b);
        let ghost o0 = out.deep_view();
        out.push(tok.to_owned());
        proof {
            assert(forall|t: int| 0 <= t < o0.len() ==> #[trigger] out.deep_view()[t] == o0[t]);
            assert(out.deep_view() =~= o0.push(s@.subrange(a as int, b as int)));
            assert(ws_tokens_from(s@, i as int) =~= seq![s@.subrange(a as int, b as int)]
                + ws_tokens_from(s@, b as int));
            assert(out.deep_view() + ws_tokens_from(s@, b as int) =~= o0 + ws_tokens_from(
                s@,
                i as int,
            ));
        }
        i = b;
    }
}

/// Whether the list already holds this exact name.
fn vec_contains(v: &Vec<String>, x: &String) -> (r: bool)
    ensures
        r == v.deep_view().contains(x@),
{
    let mut i: usize = 0;
    while i < v.len()
        invariant
            0 <= i <= v@.len(),
            forall|k: int| 0 <= k < i ==> v.deep_view()[k] != x@,
        decreases v@.len() - i,
    {
        if v[i] == *x {
            assert(v.deep_view()[i as int] == x@);
            return true;
        }
        i = i + 1;
    }
    false
}

/// Parses an NSS configuration: per line, the `#` comment is stripped, the
/// first whitespace-separated token (the service label) is skipped, and
/// every remaining token contributes its text before any `[` bracket as a
/// handler name; the distinct names are returned in order of first
/// appearance.
pub fn parse_nsswitch_conf(content: &str) -> (r: Vec<String>)
    ensures
        r.deep_view() == nss_handlers_of(content@),
{
    let lines = split_lines(content);
    let mut acc: Vec<String> = Vec::new();
    let mut li: usize = 0;
    proof {
        assert(acc.deep_view() =~= Seq::<Seq<char>>::empty());
    }
    while li < lines.len()
        invariant
            0 <= li <= lines@.len(),
            lines.deep_view() == lines_of(content@),
            dedup_from(acc.deep_view(), all_handlers_from(lines.deep_view(), li as int))
                == nss_handlers_of(content@),
        decreases lines@.len() - li,
    {
        let line = &lines[li];
        proof {
            assert(lines.deep_view()[li as int] == line@);
        }
        let hpos = find_char_at(line.as_str(), '#', 0);
        let head = line.as_str().substring_char(0, hpos);
        proof {
            assert(head@ =~= line@.take(find_ch(line@, '#', 0)));
        }
        let toks = split_ws(head);
        let ghost rest_lines = all_handlers_from(lines.deep_view(), li + 1);
        proof {
            assert(all_handlers_from(lines.deep_view(), li as int) == line_handlers(line@)
                + rest_lines);
            assert(line_handlers(line@) == handlers_in(toks.deep_view(), 1));
        }
        let mut ti: usize = 1;
        while ti < toks.len()
            invariant
                1 <= ti,
                lines.deep_view() == lines_of(content@),
                0 <= li < lines@.len(),
                rest_lines == all_handlers_from(lines.deep_view(), li + 1),
                dedup_from(
                    acc.deep_view(),
                    handlers_in(toks.deep_view(), ti as int) + rest_lines,
                ) == nss_handlers_of(content@),
            decreases toks@.len() - ti,
        {
            let t = &toks[ti];
            proof {
                assert(toks.deep_view()[ti as int] == t@);
            }
            let tn = t.as_str().unicode_len();
            let colon = if tn > 0 {
                t.as_str().get_char(tn - 1) == ':'
            } else {
                false
            };
            if !colon {
                let bpos = find_char_at(t.as_str(), '[', 0);
                let h = t.as_str().substring_char(0, bpos);
                proof {
                    assert(h@ =~= t@.take(find_ch(t@, '[', 0)));
                }
                if h.unicode_len() > 0 {
                    let hs = h.to_owned();
                    let ghost hv = hs@;
                    let ghost tail = handlers_in(toks.deep_view(), ti + 1) + rest_lines;
                    proof {
                        assert(handlers_in(toks.deep_view(), ti as int) == seq![hv]
                            + handlers_in(toks.deep_view(), ti + 1));
                        let xs = handlers_in(toks.deep_view(), ti as int) + rest_lines;
                        assert(xs.len() > 0);
                        assert(xs.first() == hv) by {
                            assert(xs[0] == (seq![hv] + handlers_in(toks.deep_view(), ti + 1))[0]);
                        }
                        assert(xs.drop_first() =~= tail);
                    }
                    let ghost a0 = acc.deep_view();
                    if !vec_contains(&acc, &hs) {
                        acc.push(hs);
                        proof {
                            assert(forall|k: int|
                                0 <= k < a0.len() ==> #[trigger] acc.deep_view()[k] == a0[k]);
                            assert(acc.deep_view() =~= a0.push(hv));
                            assert(dedup_from(acc.deep_view(), tail) == nss_handlers_of(
                                content@,
                            ));
                        }
                    } else {
                        proof {
                            assert(dedup_from(acc.deep_view(), tail) == nss_handlers_of(
                                content@,
                            ));
                        }
                    }
                } else {
                    proof {
                        assert(handlers_in(toks.deep_view(), ti as int) == handlers_in(
                            toks.deep_view(),
                            ti + 1,
                        ));
                    }
                }
            } else {
                proof {
                    assert(t@.len() > 0 && t@.last() == ':');
                    assert(handlers_in(toks.deep_view(), ti as int) == handlers_in(
                        toks.deep_view(),
                        ti + 1,
                    ));
                }
            }
            ti = ti + 1;
        }
        proof {
            assert(handlers_in(toks.deep_view(), ti as int) =~= Seq::<Seq<char>>::empty());
            assert(Seq::<Seq<char>>::empty() + rest_lines =~= rest_lines);
        }
        li = li + 1;
    }
    proof {
        assert(all_handlers_from(lines.deep_view(), lines@.len() as int) =~= Seq::<
            Seq<char>,
        >::empty());
        assert(dedup_from(acc.deep_view(), Seq::<Seq<char>>::empty()) == acc.deep_view());
    }
    acc
}

/// The decimal digit characters.
pub open spec fn dec_digits() -> Seq<char> {
    "0123456789"@
}

/// The decimal rendering of a non-negative number.
pub open spec fn dec_str_of(n: int) -> Seq<char>
    decreases n,
    when n >= 0
{
    if n < 10 {
        seq![dec_digits()[n]]
    } else {
        dec_str_of(n / 10).push(dec_digits()[n % 10])
    }
}

/// Appends the decimal rendering of `v`.
fn push_u64(out: &mut String, v: u64)
    ensures
        final(out)@ == old(out)@ + dec_str_of(v as int),
    decreases v,
{
    proof {
        reveal_strlit("0123456789");
    }
    let digits = "0123456789";
    if v < 10 {
        let d = digits.substring_char(v as usize, v as usize + 1);
        proof {
            assert(d@ =~= seq![dec_digits()[v as int]]);
        }
        out.append(d);
    } else {
        push_u64(out, v / 10);
        let ghost mid = out@;
        let m = (v % 10) as usize;
        let d = digits.substring_char(m, m + 1);
        proof {
            assert(d@ =~= seq![dec_digits()[m as int]]);
        }
        out.append(d);
        proof {
            assert(out@ =~= old(out)@ + dec_str_of(v as int));
        }
    }
}

/// The versioned module name `libnss_H-MAJ.MIN.so`.
pub open spec fn nss_name_mm(h: Seq<char>, maj: int, min: int) -> Seq<char> {
    "libnss_"@ + h + "-"@ + dec_str_of(maj) + "."@ + dec_str_of(min) + ".so"@
}

/// The major-versioned module name `libnss_H.so.MAJ`.
pub open spec fn nss_name_major(h: Seq<char>, maj: int) -> Seq<char> {
    "libnss_"@ + h + ".so."@ + dec_str_of(maj)
}

/// The bare module name `libnss_H.so`.
pub open spec fn nss_name_bare(h: Seq<char>) -> Seq<char> {
    "libnss_"@ + h + ".so"@
}

fn build_name_mm(h: &str, maj: u64, min: u64) -> (r: String)
    ensures
        r@ == nss_name_mm(h@, maj as int, min as int),
{
    let mut s = String::new();
    s.append("libnss_");
    s.append(h);
    s.append("-");
    push_u64(&mut s, maj);
    s.append(".");
    push_u64(&mut s, min);
    s.append(".so");
    proof {
        assert(s@ =~= nss_name_mm(h@, maj as int, min as int));
    }
    s
}

fn build_name_major(h: &str, maj: u64) -> (r: String)
    ensures
        r@ == nss_name_major(h@, maj as int),
{
    let mut s = String::new();
    s.append("libnss_");
    s.append(h);
    s.append(".so.");
    push_u64(&mut s, maj);
    proof {
        assert(s@ =~= nss_name_major(h@, maj as int));
    }
    s
}

fn build_name_bare(h: &str) -> (r: String)
    ensures
        r@ == nss_name_bare(h@),
{
    let mut s = String::new();
    s.append("libnss_");
    s.append(h);
    s.append(".so");
    proof {
        assert(s@ =~= nss_name_bare(h@));
    }
    s
}

/// The candidate module file names for one handler, in probe order: the
/// `major.minor` form only when the minor version is known, then the
/// major-only form, then the bare form.
pub open spec fn candidates_for(h: Seq<char>, v: Version) -> Seq<Seq<char>> {
    let tail = seq![nss_name_major(h, v.0 as int), nss_name_bare(h)];
    match v.1 {
        Some(m) => seq![nss_name_mm(h, v.0 as int, m as int)] + tail,
        None => tail,
    }
}

/// The candidates of all handlers from `i` on, in handler order.
pub open spec fn all_candidates(handlers: Seq<Seq<char>>, i: int, v: Version) -> Seq<Seq<char>>
    decreases handlers.len() - i,
{
    if i < 0 || i >= handlers.len() {
        Seq::empty()
    } else {
        candidates_for(handlers[i], v) + all_candidates(handlers, i + 1, v)
    }
}

/// The library names the C-library extension step will try to locate: the
/// compiler-runtime and IDN support libraries unconditionally, then for
/// each handler its candidate NSS module names in probe order.
pub fn find_glibc_deps(version: &Version, handlers: &Vec<String>) -> (r: Vec<String>)
    ensures
        r.deep_view() == seq!["libgcc_s.so.1"@, "libidn2.so.0"@] + all_candidates(
            handlers.deep_view(),
            0,
            *version,
        ),
{
    let ghost base = seq!["libgcc_s.so.1"@, "libidn2.so.0"@];
    let ghost goal = base + all_candidates(handlers.deep_view(), 0, *version);
    let mut out: Vec<String> = Vec::new();
    out.push("libgcc_s.so.1".to_owned());
    out.push("libidn2.so.0".to_owned());
    proof {
        assert(out.deep_view() =~= base);
    }
    let mut i: usize = 0;
    while i < handlers.len()
        invariant
            0 <= i <= handlers@.len(),
            goal == base + all_candidates(handlers.deep_view(), 0, *version),
            out.deep_view() + all_candidates(handlers.deep_view(), i as int, *version) == goal,
        decreases handlers@.len() - i,
    {
        let h = &handlers[i];
        proof {
            assert(handlers.deep_view()[i as int] == h@);
        }
        let ghost o0 = out.deep_view();
        match version.1 {
            Some(m) => {
                out.push(build_name_mm(h.as_str(), version.0, m));
            },
            None => {},
        }
        out.push(build_name_major(h.as_str(), version.0));
        out.push(build_name_bare(h.as_str()));
        proof {
            assert(out.deep_view() =~= o0 + candidates_for(h@, *version));
            assert(out.deep_view() + all_candidates(handlers.deep_view(), i + 1, *version)
                =~= o0 + all_candidates(handlers.deep_view(), i as int, *version));
        }
        i = i + 1;
    }
    proof {
        assert(all_candidates(handlers.deep_view(), handlers@.len() as int, *version) =~= Seq::<
            Seq<char>,
        >::empty());
        assert(out.deep_view() + Seq::<Seq<char>>::empty() =~= out.deep_view());
    }
    out
}

/// Appends the configuration file's own path to the located libraries, so
/// the configuration travels with the closure when it is present.
pub fn glibc_extra_refs(located: &Vec<String>, conf_path: Option<String>) -> (r: Vec<String>)
    ensures
        r.deep_view() == located.deep_view() + match conf_path {
            Some(p) => seq![p@],
            None => Seq::<Seq<char>>::empty(),
        },
{
    let mut out: Vec<String> = Vec::new();
    let mut i: usize = 0;
    while i < located.len()
        invariant
            0 <= i <= located@.len(),
            out.deep_view() =~= located.deep_view().take(i as int),
        decreases located@.len() - i,
    {
        let ghost o0 = out.deep_view();
        out.push(located[i].clone());
        proof {
            assert(forall|t: int| 0 <= t < o0.len() ==> #[trigger] out.deep_view()[t] == o0[t]);
            assert(out.deep_view().last() == located.deep_view()[i as int]);
            assert(out.deep_view() =~= located.deep_view().take(i + 1 as int));
        }
        i = i + 1;
    }
    proof {
        assert(out.deep_view() =~= located.deep_view());
    }
    match conf_path {
        Some(p) => {
            let ghost o0 = out.deep_view();
            let ghost pv = p@;
            out.push(p);
            proof {
                assert(forall|t: int|
                    0 <= t < o0.len() ==> #[trigger] out.deep_view()[t] == o0[t]);
                assert(out.deep_view() =~= located.deep_view() + seq![pv]);
            }
            out
        },
        None => {
            proof {
                assert(out.deep_view() =~= located.deep_view() + Seq::<Seq<char>>::empty());
            }
            out
        },
    }
}

/// What matching a pattern against a line returns as the first capture
/// group, a function of the pattern and the line alone.
pub uninterp spec fn capture1_of(pattern: Seq<char>, line: Seq<char>) -> Option<Seq<char>>;

/// Relies on `regex::Regex::new` and `regex::Regex::captures` (regex
/// 1.13): the first capture group's match depends on the pattern and the
/// line alone.
#[verifier::external_body]
fn regex_capture1(pattern: &str, line: &str) -> (r: Option<String>)
    ensures
        r.deep_view() == capture1_of(pattern@, line@),
{
    let re = match regex::Regex::new(pattern) {
        Ok(re) => re,
        Err(_) => return None,
    };
    let caps = re.captures(line)?;
    caps.get(1).map(|m| m.as_str().to_owned())
}

/// The fixed pattern that recognizes the C library's version banner.
pub open spec fn glibc_banner_pattern() -> Seq<char> {
    "(?i)^GNU C Library.*version (\\d+\\.\\d+(?:\\.\\d+)?)"@
}

/// Extracts the C-library version from the first line of its banner: the
/// line must match the banner pattern case-insensitively, and the dotted
/// token it captures must parse as a version.
pub fn parse_glibc_banner(line: &str) -> (r: Option<Version>)
    ensures
        match capture1_of(glibc_banner_pattern(), line@) {
            None => r is None,
            Some(cap) => r == version_of(cap),
        },
{
    let cap = match regex_capture1("(?i)^GNU C Library.*version (\\d+\\.\\d+(?:\\.\\d+)?)", line) {
        Some(c) => c,
        None => {
            return None;
        },
    };
    match Version::from_str(cap.as_str()) {
        Ok(v) => Some(v),
        Err(()) => None,
    }
}

} // verus!
