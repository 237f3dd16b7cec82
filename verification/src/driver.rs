//! The closure driver: a FIFO worklist of normalized paths plus a record of
//! every path already processed, with its success flag.  Each distinct path
//! is resolved at most once; a failed path is never retried; the final
//! report holds the successes only, sorted by ascending encoded (byte)
//! length and then lexicographically, with no duplicates.

use vstd::prelude::*;

verus! {

use vstd::utf8::encode_utf8;
use crate::errors::ResolveError;
use crate::paths::{absolutize_of, parent_of, parent_dir, resolve_path};

/// Lexicographic order on equal footing: first differing character decides.
pub open spec fn lex_le(a: Seq<char>, b: Seq<char>) -> bool
    decreases a.len(),
{
    if a.len() == 0 {
        true
    } else if b.len() == 0 {
        false
    } else if a[0] == b[0] {
        lex_le(a.drop_first(), b.drop_first())
    } else {
        (a[0] as u32) < (b[0] as u32)
    }
}

/// The report order: ascending encoded length (the byte count of the
/// path's UTF-8 form), ties broken lexicographically.
pub open spec fn path_le(a: Seq<char>, b: Seq<char>) -> bool {
    ||| encode_utf8(a).len() < encode_utf8(b).len()
    ||| (encode_utf8(a).len() == encode_utf8(b).len() && lex_le(a, b))
}

pub open spec fn sorted(s: Seq<Seq<char>>) -> bool {
    forall|i: int, j: int|
        #![trigger s[i], s[j]]
        0 <= i < j < s.len() ==> path_le(s[i], s[j])
}

pub open spec fn distinct(s: Seq<Seq<char>>) -> bool {
    forall|i: int, j: int|
        #![trigger s[i], s[j]]
        0 <= i < j < s.len() ==> s[i] != s[j]
}

pub proof fn lemma_lex_le_total(a: Seq<char>, b: Seq<char>)
    ensures
        lex_le(a, b) || lex_le(b, a),
    decreases a.len(),
{
    broadcast use vstd::utf8::char_u32_cast;

    if a.len() > 0 && b.len() > 0 {
        if a[0] == b[0] {
            lemma_lex_le_total(a.drop_first(), b.drop_first());
        } else if a[0] as u32 == b[0] as u32 {
            vstd::utf8::char_u32_cast(a[0], a[0] as u32);
            vstd::utf8::char_u32_cast(b[0], b[0] as u32);
            assert(false);
        }
    }
}

pub proof fn lemma_lex_le_antisym(a: Seq<char>, b: Seq<char>)
    requires
        lex_le(a, b),
        lex_le(b, a),
    ensures
        a == b,
    decreases a.len(),
{
    broadcast use vstd::utf8::char_u32_cast;

    if a.len() == 0 {
        assert(b.len() == 0);
        assert(a =~= b);
    } else {
        assert(b.len() > 0);
        if a[0] == b[0] {
            lemma_lex_le_antisym(a.drop_first(), b.drop_first());
            assert(a =~= b) by {
                assert(forall|k: int|
                    1 <= k < a.len() ==> a[k] == a.drop_first()[k - 1] && b[k]
                        == b.drop_first()[k - 1]);
            }
        } else if a[0] as u32 == b[0] as u32 {
            vstd::utf8::char_u32_cast(a[0], a[0] as u32);
            vstd::utf8::char_u32_cast(b[0], b[0] as u32);
            assert(false);
        }
    }
}

pub proof fn lemma_lex_le_trans(a: Seq<char>, b: Seq<char>, c: Seq<char>)
    requires
        lex_le(a, b),
        lex_le(b, c),
    ensures
        lex_le(a, c),
    decreases a.len(),
{
    broadcast use vstd::utf8::char_u32_cast;

    if a.len() > 0 && b.len() > 0 && c.len() > 0 {
        if a[0] == b[0] && b[0] == c[0] {
            lemma_lex_le_trans(a.drop_first(), b.drop_first(), c.drop_first());
        }
    }
}

pub proof fn lemma_path_le_total(a: Seq<char>, b: Seq<char>)
    ensures
        path_le(a, b) || path_le(b, a),
{
    lemma_lex_le_total(a, b);
}

pub proof fn lemma_path_le_antisym(a: Seq<char>, b: Seq<char>)
    requires
        path_le(a, b),
        path_le(b, a),
    ensures
        a == b,
{
    lemma_lex_le_antisym(a, b);
}

pub proof fn lemma_path_le_trans(a: Seq<char>, b: Seq<char>, c: Seq<char>)
    requires
        path_le(a, b),
        path_le(b, c),
    ensures
        path_le(a, c),
{
    if encode_utf8(a).len() == encode_utf8(b).len() && encode_utf8(b).len() == encode_utf8(
        c,
    ).len() {
        lemma_lex_le_trans(a, b, c);
    }
}

/// The paths recorded as successes, in recording order.
pub open spec fn successes_of(d: Seq<Seq<char>>, f: Seq<bool>) -> Seq<Seq<char>>
    decreases d.len(),
{
    if d.len() == 0 || d.len() != f.len() {
        Seq::empty()
    } else if f.last() {
        successes_of(d.drop_last(), f.drop_last()).push(d.last())
    } else {
        successes_of(d.drop_last(), f.drop_last())
    }
}

pub proof fn lemma_successes_contains(d: Seq<Seq<char>>, f: Seq<bool>, y: Seq<char>)
    requires
        d.len() == f.len(),
    ensures
        successes_of(d, f).contains(y) <==> exists|i: int|
            0 <= i < d.len() && d[i] == y && f[i],
    decreases d.len(),
{
    if d.len() > 0 {
        lemma_successes_contains(d.drop_last(), f.drop_last(), y);
        let s0 = successes_of(d.drop_last(), f.drop_last());
        assert(forall|i: int|
            0 <= i < d.len() - 1 ==> d.drop_last()[i] == d[i] && f.drop_last()[i] == f[i]);
        if f.last() {
            let s = s0.push(d.last());
            if s.contains(y) {
                let k = choose|k: int| 0 <= k < s.len() && s[k] == y;
                if k < s0.len() {
                    assert(s0.contains(y));
                } else {
                    assert(d[d.len() - 1] == y && f[d.len() - 1]);
                }
            }
            if exists|i: int| 0 <= i < d.len() && d[i] == y && f[i] {
                let i = choose|i: int| 0 <= i < d.len() && d[i] == y && f[i];
                if i < d.len() - 1 {
                    assert(s0.contains(y));
                    let k = choose|k: int| 0 <= k < s0.len() && s0[k] == y;
                    assert(s[k] == y);
                } else {
                    assert(s[s.len() - 1] == y);
                }
            }
        } else {
            if exists|i: int| 0 <= i < d.len() && d[i] == y && f[i] {
                let i = choose|i: int| 0 <= i < d.len() && d[i] == y && f[i];
                assert(i < d.len() - 1);
            }
        }
    }
}

pub proof fn lemma_successes_distinct(d: Seq<Seq<char>>, f: Seq<bool>)
    requires
        d.len() == f.len(),
        distinct(d),
    ensures
        distinct(successes_of(d, f)),
    decreases d.len(),
{
    if d.len() > 0 {
        assert(forall|i: int|
            0 <= i < d.len() - 1 ==> d.drop_last()[i] == d[i] && f.drop_last()[i] == f[i]);
        lemma_successes_distinct(d.drop_last(), f.drop_last());
        if f.last() {
            let s0 = successes_of(d.drop_last(), f.drop_last());
            if s0.contains(d.last()) {
                lemma_successes_contains(d.drop_last(), f.drop_last(), d.last());
                let i = choose|i: int|
                    0 <= i < d.len() - 1 && d.drop_last()[i] == d.last() && f.drop_last()[i];
                assert(d[i] == d[d.len() - 1]);
                assert(false);
            }
            let s = s0.push(d.last());
            assert(distinct(s)) by {
                assert(forall|k: int| 0 <= k < s0.len() ==> s[k] == s0[k]);
            }
        }
    }
}

/// Determinism of reporting: a sorted, duplicate-free sequence of paths is
/// determined by the set of paths it holds alone, so two runs whose
/// resolutions succeed on the same paths print identical output.
pub proof fn lemma_sorted_output_unique(a: Seq<Seq<char>>, b: Seq<Seq<char>>)
    requires
        sorted(a),
        sorted(b),
        distinct(a),
        distinct(b),
        forall|y: Seq<char>| a.contains(y) <==> b.contains(y),
    ensures
        a == b,
    decreases a.len() + b.len(),
{
    if a.len() == 0 && b.len() == 0 {
        assert(a =~= b);
    } else if a.len() == 0 {
        assert(b.contains(b[0]));
        assert(a.contains(b[0]));
        assert(false);
    } else if b.len() == 0 {
        assert(a.contains(a[0]));
        assert(b.contains(a[0]));
        assert(false);
    } else {
        assert(a.contains(a[0]));
        assert(b.contains(a[0]));
        let j = choose|j: int| 0 <= j < b.len() && b[j] == a[0];
        assert(b.contains(b[0]));
        assert(a.contains(b[0]));
        let i = choose|i: int| 0 <= i < a.len() && a[i] == b[0];
        if j > 0 {
            assert(path_le(b[0], b[j]));
        }
        if i > 0 {
            assert(path_le(a[0], a[i]));
        }
        if i == 0 || j == 0 {
            assert(a[0] == b[0]);
        } else {
            lemma_path_le_antisym(a[0], b[0]);
        }
        let at = a.drop_first();
        let bt = b.drop_first();
        assert(forall|k: int| 0 <= k < at.len() ==> at[k] == a[k + 1]);
        assert(forall|k: int| 0 <= k < bt.len() ==> bt[k] == b[k + 1]);
        assert(forall|y: Seq<char>| at.contains(y) <==> bt.contains(y)) by {
            assert(forall|y: Seq<char>| #[trigger] at.contains(y) ==> a.contains(y) && y != a[0])
                by {
                assert forall|y: Seq<char>| #[trigger] at.contains(y) implies a.contains(y) && y
                    != a[0] by {
                    let k = choose|k: int| 0 <= k < at.len() && at[k] == y;
                    assert(a[k + 1] == y);
                };
            }
            assert(forall|y: Seq<char>| #[trigger] bt.contains(y) ==> b.contains(y) && y != b[0])
                by {
                assert forall|y: Seq<char>| #[trigger] bt.contains(y) implies b.contains(y) && y
                    != b[0] by {
                    let k = choose|k: int| 0 <= k < bt.len() && bt[k] == y;
                    assert(b[k + 1] == y);
                };
            }
            assert forall|y: Seq<char>| a.contains(y) && y != a[0] implies #[trigger] at.contains(
                y,
            ) by {
                let k = choose|k: int| 0 <= k < a.len() && a[k] == y;
                assert(k > 0);
                assert(at[k - 1] == y);
            };
            assert forall|y: Seq<char>| b.contains(y) && y != b[0] implies #[trigger] bt.contains(
                y,
            ) by {
                let k = choose|k: int| 0 <= k < b.len() && b[k] == y;
                assert(k > 0);
                assert(bt[k - 1] == y);
            };
        }
        lemma_sorted_output_unique(at, bt);
        assert(a =~= b) by {
            assert(forall|k: int| 1 <= k < a.len() ==> a[k] == at[k - 1]);
            assert(forall|k: int| 1 <= k < b.len() ==> b[k] == bt[k - 1]);
        }
    }
}

proof fn lemma_filter_push(s: Seq<Seq<char>>, x: Seq<char>, g: spec_fn(Seq<char>) -> bool)
    ensures
        s.push(x).filter(g) == if g(x) {
            s.filter(g).push(x)
        } else {
            s.filter(g)
        },
{
    reveal(Seq::filter);
    assert(s.push(x).drop_last() =~= s);
    assert(s.push(x).last() == x);
}

/// The worklist, the processing record and its success flags.
pub struct Closure {
    /// Pending normalized paths, front first.
    pub queue: Vec<String>,
    /// Paths already processed, in processing order.
    pub done: Vec<String>,
    /// The success flag of each processed path.
    pub flags: Vec<bool>,
}

impl Closure {
    /// The pending normalized paths, front first.
    pub open spec fn qview(self) -> Seq<Seq<char>> {
        self.queue.deep_view()
    }

    /// The paths already processed, in processing order.
    pub open spec fn dview(self) -> Seq<Seq<char>> {
        self.done.deep_view()
    }

    /// The success flag of each processed path.
    pub open spec fn fview(self) -> Seq<bool> {
        self.flags@
    }

    /// Whether a path was already processed (successfully or not).
    pub open spec fn seen(self, p: Seq<char>) -> bool {
        self.dview().contains(p)
    }

    /// Each distinct path is recorded at most once.
    pub open spec fn wf(self) -> bool {
        &&& self.done@.len() == self.flags@.len()
        &&& distinct(self.dview())
    }

    /// Starts a run: every seed is normalized against the working directory
    /// and queued; nothing is processed yet.
    pub fn new(seeds: &Vec<String>, cwd: &str) -> (c: Closure)
        ensures
            c.wf(),
            c.dview() == Seq::<Seq<char>>::empty(),
            c.fview() == Seq::<bool>::empty(),
            c.qview() == Seq::new(
                seeds.deep_view().len(),
                |i: int| absolutize_of(seeds.deep_view()[i], cwd@),
            ),
    {
        let mut queue: Vec<String> = Vec::new();
        let mut i: usize = 0;
        while i < seeds.len()
            invariant
                0 <= i <= seeds@.len(),
                queue.deep_view() =~= Seq::new(
                    i as nat,
                    |k: int| absolutize_of(seeds.deep_view()[k], cwd@),
                ),
            decreases seeds@.len() - i,
        {
            let n = resolve_path(seeds[i].as_str(), cwd);
            let ghost nv = n@;
            let ghost qd0 = queue.deep_view();
            queue.push(n);
            proof {
                assert(nv == absolutize_of(seeds.deep_view()[i as int], cwd@));
                assert(queue.deep_view() =~= qd0.push(nv)) by {
                    assert(forall|k: int|
                        0 <= k < qd0.len() ==> #[trigger] queue.deep_view()[k] == qd0[k]);
                    assert(queue.deep_view().last() == nv);
                }
                assert(queue.deep_view() =~= Seq::new(
                    (i + 1) as nat,
                    |k: int| absolutize_of(seeds.deep_view()[k], cwd@),
                ));
            }
            i = i + 1;
        }
        let c = Closure { queue, done: Vec::new(), flags: Vec::new() };
        proof {
            assert(c.qview() =~= Seq::new(
                seeds.deep_view().len(),
                |i: int| absolutize_of(seeds.deep_view()[i], cwd@),
            ));
            assert(c.dview() =~= Seq::<Seq<char>>::empty());
        }
        c
    }

    /// Whether this exact normalized path was already processed.
    pub fn is_seen(&self, p: &String) -> (r: bool)
        ensures
            r == self.seen(p@),
    {
        let mut i: usize = 0;
        while i < self.done.len()
            invariant
                0 <= i <= self.done@.len(),
                forall|k: int| 0 <= k < i ==> self.dview()[k] != p@,
            decreases self.done@.len() - i,
        {
            if self.done[i] == *p {
                assert(self.dview()[i as int] == p@);
                return true;
            }
            i = i + 1;
        }
        false
    }

    /// Pops worklist entries until one not yet processed appears; the
    /// entries skipped over were all processed already.
    pub fn next(&mut self) -> (r: Option<String>)
        requires
            old(self).wf(),
        ensures
            final(self).wf(),
            final(self).done == old(self).done,
            final(self).flags == old(self).flags,
            r is None ==> final(self).qview().len() == 0 && (forall|k: int|
                0 <= k < old(self).qview().len() ==> old(self).seen(
                    #[trigger] old(self).qview()[k],
                )),
            r matches Some(p) ==> !old(self).seen(p@) && (exists|j: int|
                0 <= j < old(self).qview().len() && old(self).qview()[j] == p@
                    && final(self).qview() == old(self).qview().skip(j + 1) && (forall|k: int|
                    0 <= k < j ==> old(self).seen(#[trigger] old(self).qview()[k]))),
    {
        let ghost q0 = self.qview();
        let ghost mut j: int = 0;
        proof {
            assert(q0.skip(0) =~= q0);
        }
        while self.queue.len() > 0
            invariant
                self.wf(),
                self.done == old(self).done,
                self.flags == old(self).flags,
                0 <= j <= q0.len(),
                q0 == old(self).qview(),
                self.qview() == q0.skip(j),
                forall|k: int| 0 <= k < j ==> old(self).seen(#[trigger] q0[k]),
            decreases self.queue@.len(),
        {
            let ghost qs_pre = self.queue@;
            let ghost qd_pre = self.queue.deep_view();
            proof {
                assert(qd_pre == q0.skip(j));
                assert(q0.skip(j).len() == q0.len() - j);
                assert(j < q0.len());
                assert(q0.skip(j)[0] == q0[j]);
            }
            let p = self.queue.remove(0);
            proof {
                assert(p == qs_pre[0]);
                assert(p@ == qd_pre[0]);
                assert(p@ == q0[j]);
                assert(self.queue.deep_view() =~= q0.skip(j + 1)) by {
                    assert(forall|k: int|
                        0 <= k < self.queue@.len() ==> #[trigger] self.queue@[k]
                            == qs_pre.remove(0)[k]);
                    assert(forall|k: int|
                        0 <= k < self.queue@.len() ==> #[trigger] qs_pre.remove(0)[k] == qs_pre[k
                            + 1]);
                    assert(forall|k: int|
                        0 <= k < self.queue@.len() ==> #[trigger] self.queue.deep_view()[k]
                            == qd_pre[k + 1]);
                    assert(forall|k: int|
                        0 <= k < q0.skip(j + 1).len() ==> #[trigger] q0.skip(j + 1)[k]
                            == q0.skip(j)[k + 1]);
                }
            }
            if !self.is_seen(&p) {
                proof {
                    assert(q0 == old(self).qview());
                    assert forall|k: int| 0 <= k < j implies old(self).seen(
                        #[trigger] old(self).qview()[k],
                    ) by {
                        assert(old(self).qview()[k] == q0[k]);
                    };
                    assert(0 <= j < old(self).qview().len() && old(self).qview()[j] == p@
                        && self.qview() == old(self).qview().skip(j + 1) && (forall|k: int|
                        0 <= k < j ==> old(self).seen(#[trigger] old(self).qview()[k])));
                }
                return Some(p);
            }
            proof {
                j = j + 1;
            }
        }
        proof {
            assert(forall|k: int| 0 <= k < q0.len() ==> old(self).seen(#[trigger] q0[k]));
        }
        None
    }

    /// Records a successful resolution: every discovered reference is
    /// normalized against the entity's reference directory (the entity
    /// itself for a directory, its parent otherwise) and queued unless that
    /// exact path was already processed; the path itself is marked a
    /// success.  A path already processed is left untouched; a file without
    /// a parent directory is a broken invariant and fatal.
    pub fn record(&mut self, path: String, is_dir: bool, refs: &Vec<String>) -> (r: Result<
        (),
        ResolveError,
    >)
        requires
            old(self).wf(),
        ensures
            final(self).wf(),
            old(self).seen(path@) ==> *final(self) == *old(self) && r == Ok::<(), ResolveError>(
                (),
            ),
            !old(self).seen(path@) && !is_dir && parent_of(path@) is None ==> *final(self)
                == *old(self) && r == Err::<(), ResolveError>(ResolveError::NoParentDir),
            (!old(self).seen(path@) && (is_dir || parent_of(path@) is Some)) ==> {
                let refdir = if is_dir {
                    path@
                } else {
                    parent_of(path@).unwrap()
                };
                &&& r == Ok::<(), ResolveError>(())
                &&& final(self).dview() == old(self).dview().push(path@)
                &&& final(self).fview() == old(self).fview().push(true)
                &&& final(self).qview() == old(self).qview() + refs.deep_view().map_values(
                    |s: Seq<char>| absolutize_of(s, refdir),
                ).filter(|p: Seq<char>| !old(self).seen(p))
            },
    {
        if self.is_seen(&path) {
            return Ok(());
        }
        let refdir: String;
        if is_dir {
            refdir = path.clone();
        } else {
            match parent_dir(path.as_str()) {
                Some(d) => {
                    refdir = d;
                },
                None => {
                    return Err(ResolveError::NoParentDir);
                },
            }
        }
        let ghost rd = if is_dir { path@ } else { parent_of(path@).unwrap() };
        assert(refdir@ == rd);
        let ghost m = |s: Seq<char>| absolutize_of(s, rd);
        let ghost g = |p: Seq<char>| !old(self).seen(p);
        let ghost q0 = self.qview();
        proof {
            assert(refs.deep_view().take(0).map_values(m).filter(g) =~= Seq::<Seq<char>>::empty());
            assert(q0 + Seq::<Seq<char>>::empty() =~= q0);
        }
        let mut k: usize = 0;
        while k < refs.len()
            invariant
                self.wf(),
                self.done == old(self).done,
                self.flags == old(self).flags,
                0 <= k <= refs@.len(),
                refdir@ == rd,
                m == (|s: Seq<char>| absolutize_of(s, rd)),
                g == (|p: Seq<char>| !old(self).seen(p)),
                q0 == old(self).qview(),
                self.qview() == q0 + refs.deep_view().take(k as int).map_values(m).filter(g),
            decreases refs@.len() - k,
        {
            let n = resolve_path(refs[k].as_str(), refdir.as_str());
            let ghost qcur = self.qview();
            proof {
                let t = refs.deep_view().take(k as int);
                let t1 = refs.deep_view().take(k + 1 as int);
                assert(t1 =~= t.push(refs.deep_view()[k as int]));
                assert(t1.map_values(m) =~= t.map_values(m).push(n@));
                lemma_filter_push(t.map_values(m), n@, g);
            }
            if !self.is_seen(&n) {
                self.queue.push(n);
                proof {
                    assert(self.qview() =~= qcur.push(n@));
                    assert(self.qview() =~= q0 + refs.deep_view().take(k + 1 as int).map_values(
                        m,
                    ).filter(g));
                }
            } else {
                proof {
                    assert(self.qview() =~= q0 + refs.deep_view().take(k + 1 as int).map_values(
                        m,
                    ).filter(g));
                }
            }
            k = k + 1;
        }
        proof {
            assert(refs.deep_view().take(refs@.len() as int) =~= refs.deep_view());
        }
        let ghost d0 = self.dview();
        let ghost pv = path@;
        self.done.push(path);
        self.flags.push(true);
        proof {
            assert(self.dview() =~= d0.push(pv));
            assert(distinct(self.dview())) by {
                assert(forall|i: int| 0 <= i < d0.len() ==> self.dview()[i] == d0[i]);
            }
        }
        Ok(())
    }

    /// Records a failed resolution: the path is marked failed and nothing
    /// is queued.  A path already processed is left untouched.
    pub fn record_failure(&mut self, path: String)
        requires
            old(self).wf(),
        ensures
            final(self).wf(),
            old(self).seen(path@) ==> *final(self) == *old(self),
            !old(self).seen(path@) ==> final(self).dview() == old(self).dview().push(path@)
                && final(self).fview() == old(self).fview().push(false) && final(self).queue
                == old(self).queue,
    {
        if self.is_seen(&path) {
            return ;
        }
        let ghost d0 = self.dview();
        let ghost pv = path@;
        self.done.push(path);
        self.flags.push(false);
        proof {
            assert(self.dview() =~= d0.push(pv));
            assert(distinct(self.dview())) by {
                assert(forall|i: int| 0 <= i < d0.len() ==> self.dview()[i] == d0[i]);
            }
        }
    }

    /// The final report: the successfully resolved paths, sorted by
    /// ascending encoded (byte) length then lexicographically, each at
    /// most once; failed paths are excluded.
    pub fn finish(&self) -> (r: Vec<String>)
        requires
            self.wf(),
        ensures
            sorted(r.deep_view()),
            distinct(r.deep_view()),
            forall|y: Seq<char>| #[trigger]
                r.deep_view().contains(y) <==> successes_of(self.dview(), self.fview()).contains(
                    y,
                ),
    {
        let mut succ: Vec<String> = Vec::new();
        let mut i: usize = 0;
        proof {
            assert(succ.deep_view() =~= successes_of(
                self.dview().take(0),
                self.fview().take(0),
            ));
        }
        while i < self.done.len()
            invariant
                self.wf(),
                0 <= i <= self.done@.len(),
                succ.deep_view() == successes_of(
                    self.dview().take(i as int),
                    self.fview().take(i as int),
                ),
            decreases self.done@.len() - i,
        {
            let ghost sc = succ.deep_view();
            let ghost d1 = self.dview().take(i + 1 as int);
            let ghost f1 = self.fview().take(i + 1 as int);
            proof {
                assert(d1.drop_last() =~= self.dview().take(i as int));
                assert(f1.drop_last() =~= self.fview().take(i as int));
                assert(d1.last() == self.dview()[i as int]);
                assert(f1.last() == self.fview()[i as int]);
            }
            if self.flags[i] {
                let x = self.done[i].clone();
                succ.push(x);
                proof {
                    assert(succ.deep_view() =~= sc.push(self.dview()[i as int]));
                }
            }
            i = i + 1;
        }
        proof {
            assert(self.dview().take(self.done@.len() as int) =~= self.dview());
            assert(self.fview().take(self.done@.len() as int) =~= self.fview());
            lemma_successes_distinct(self.dview(), self.fview());
        }
        sort_paths(succ)
    }
}

/// Finds where to insert: the first position whose element is not `<=` the
/// new one.
fn insert_pos(out: &Vec<String>, x: &String) -> (j: usize)
    ensures
        j <= out@.len(),
        forall|k: int| 0 <= k < j ==> path_le(#[trigger] out.deep_view()[k], x@),
        j < out@.len() ==> !path_le(out.deep_view()[j as int], x@),
{
    let mut j: usize = 0;
    while j < out.len()
        invariant
            0 <= j <= out@.len(),
            forall|k: int| 0 <= k < j ==> path_le(#[trigger] out.deep_view()[k], x@),
        decreases out@.len() - j,
    {
        if !path_le_exec(&out[j], x) {
            return j;
        }
        j = j + 1;
    }
    j
}

/// Compares two paths in report order.
fn path_le_exec(a: &String, b: &String) -> (r: bool)
    ensures
        r == path_le(a@, b@),
{
    let abytes = a.as_str().as_bytes();
    let bbytes = b.as_str().as_bytes();
    let ba = abytes.len();
    let bb = bbytes.len();
    proof {
        assert(abytes@ == encode_utf8(a@));
        assert(bbytes@ == encode_utf8(b@));
    }
    if ba < bb {
        return true;
    }
    if ba > bb {
        return false;
    }
    let la = a.as_str().unicode_len();
    let lb = b.as_str().unicode_len();
    let mut i: usize = 0;
    proof {
        assert(a@.skip(0) =~= a@);
        assert(b@.skip(0) =~= b@);
    }
    while i < la && i < lb
        invariant
            la == a@.len() && lb == b@.len(),
            encode_utf8(a@).len() == encode_utf8(b@).len(),
            0 <= i <= la && i <= lb,
            lex_le(a@, b@) == lex_le(a@.skip(i as int), b@.skip(i as int)),
        decreases la - i,
    {
        let ca = a.as_str().get_char(i);
        let cb = b.as_str().get_char(i);
        proof {
            assert(a@.skip(i as int)[0] == ca);
            assert(b@.skip(i as int)[0] == cb);
        }
        if ca != cb {
            return (ca as u32) < (cb as u32);
        }
        proof {
            assert(a@.skip(i as int).drop_first() =~= a@.skip(i + 1));
            assert(b@.skip(i as int).drop_first() =~= b@.skip(i + 1));
        }
        i = i + 1;
    }
    if i == la {
        proof {
            assert(a@.skip(la as int) =~= Seq::<char>::empty());
        }
        true
    } else {
        proof {
            assert(b@.skip(lb as int) =~= Seq::<char>::empty());
            assert(a@.skip(i as int).len() > 0);
        }
        false
    }
}

/// Insertion sort in report order; the input holds no duplicates, and the
/// output holds exactly the same paths.
fn sort_paths(v: Vec<String>) -> (r: Vec<String>)
    requires
        distinct(v.deep_view()),
    ensures
        sorted(r.deep_view()),
        distinct(r.deep_view()),
        forall|y: Seq<char>| #[trigger]
            r.deep_view().contains(y) <==> v.deep_view().contains(y),
{
    let mut out: Vec<String> = Vec::new();
    let mut i: usize = 0;
    while i < v.len()
        invariant
            0 <= i <= v@.len(),
            distinct(v.deep_view()),
            sorted(out.deep_view()),
            distinct(out.deep_view()),
            forall|y: Seq<char>| #[trigger]
                out.deep_view().contains(y) <==> v.deep_view().take(i as int).contains(y),
        decreases v@.len() - i,
    {
        let x = v[i].clone();
        let ghost o0 = out.deep_view();
        proof {
            if o0.contains(x@) {
                assert(v.deep_view().take(i as int).contains(x@));
                let k = choose|k: int|
                    0 <= k < i && #[trigger] v.deep_view().take(i as int)[k] == x@;
                assert(v.deep_view()[k] == x@);
                assert(v.deep_view()[i as int] == x@);
                assert(false);
            }
        }
        let j = insert_pos(&out, &x);
        out.insert(j, x);
        proof {
            let o1 = out.deep_view();
            assert(o1.len() == o0.len() + 1);
            assert(forall|k: int| 0 <= k < j ==> o1[k] == o0[k]);
            assert(o1[j as int] == x@);
            assert(forall|k: int| j < k < o1.len() ==> o1[k] == o0[k - 1]);
            if (j as int) < o0.len() {
                lemma_path_le_total(o0[j as int], x@);
            }
            assert(sorted(o1)) by {
                assert forall|p: int, q: int| 0 <= p < q < o1.len() implies path_le(
                    o1[p],
                    o1[q],
                ) by {
                    if p < j && q < j {
                    } else if p < j && q == j {
                    } else if p < j && q > j {
                        if j < o0.len() {
                        }
                    } else if p == j && q > j {
                        if (j as int) < o0.len() {
                            if q > j + 1 {
                                lemma_path_le_trans(x@, o0[j as int], o0[q - 1]);
                            }
                        }
                    } else {
                    }
                };
            }
            assert(distinct(o1)) by {
                assert forall|p: int, q: int| 0 <= p < q < o1.len() implies o1[p] != o1[q] by {
                    if p == j {
                        assert(o1[q] == o0[q - 1]);
                        if o1[q] == x@ {
                            assert(o0.contains(o0[q - 1]));
                        }
                    } else if q == j {
                        if o1[p] == x@ {
                            assert(o0.contains(o0[p]));
                        }
                    }
                };
            }
            assert(forall|y: Seq<char>| #[trigger]
                o1.contains(y) <==> v.deep_view().take(i + 1 as int).contains(y)) by {
                assert forall|y: Seq<char>| #[trigger] o1.contains(y) implies v.deep_view().take(
                    i + 1 as int,
                ).contains(y) by {
                    let k = choose|k: int| 0 <= k < o1.len() && o1[k] == y;
                    if k == j {
                        assert(v.deep_view().take(i + 1 as int)[i as int] == x@);
                    } else {
                        let k0 = if k < j {
                            k
                        } else {
                            k - 1
                        };
                        assert(o0[k0] == y);
                        assert(o0.contains(y));
                        let w = choose|w: int|
                            0 <= w < i && #[trigger] v.deep_view().take(i as int)[w] == y;
                        assert(v.deep_view().take(i + 1 as int)[w] == y);
                    }
                };
                assert forall|y: Seq<char>| v.deep_view().take(i + 1 as int).contains(
                    y,
                ) implies #[trigger] o1.contains(y) by {
                    let w = choose|w: int|
                        0 <= w <= i && #[trigger] v.deep_view().take(i + 1 as int)[w] == y;
                    if w == i {
                        assert(o1[j as int] == y);
                    } else {
                        assert(v.deep_view().take(i as int)[w] == y);
                        assert(o0.contains(y));
                        let k = choose|k: int| 0 <= k < o0.len() && o0[k] == y;
                        if k < j {
                            assert(o1[k] == y);
                        } else {
                            assert(o1[k + 1] == y);
                        }
                    }
                };
            }
        }
        i = i + 1;
    }
    proof {
        assert(v.deep_view().take(v@.len() as int) =~= v.deep_view());
    }
    out
}

} // verus!
