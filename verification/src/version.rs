//! Dotted version values `major[.minor[.patch]]`: parsing and comparison.
//!
//! Ordering compares (major, minor-or-0, patch-or-0); equality additionally
//! requires identical presence of the optional fields, so `2.0` orders equal
//! to `2` without being equal to it.

use vstd::prelude::*;

verus! {

use core::cmp::Ordering;

/// Major version, optional minor version, optional patch version.
#[derive(Debug, Clone, Copy)]
pub struct Version(pub u64, pub Option<u64>, pub Option<u64>);

pub open spec fn is_digit(c: char) -> bool {
    48 <= c as u32 <= 57
}

pub open spec fn all_digits(s: Seq<char>) -> bool {
    forall|i: int| 0 <= i < s.len() ==> is_digit(#[trigger] s[i])
}

/// Value of a digit string, most significant digit first.
pub open spec fn digits_val(s: Seq<char>) -> int
    decreases s.len(),
{
    if s.len() == 0 {
        0
    } else {
        digits_val(s.drop_last()) * 10 + (s.last() as u32 - 48)
    }
}

/// The digits of a number token: a leading `+` sign is accepted and skipped.
pub open spec fn num_body(s: Seq<char>) -> Seq<char> {
    if s.len() > 0 && s[0] == '+' {
        s.drop_first()
    } else {
        s
    }
}

/// What parsing a non-negative decimal number returns: the digits' value,
/// unless the token is malformed or the value does not fit in a `u64`.
pub open spec fn u64_of_digits(s: Seq<char>) -> Option<u64> {
    let b = num_body(s);
    if b.len() > 0 && all_digits(b) && digits_val(b) <= u64::MAX {
        Some(digits_val(b) as u64)
    } else {
        None
    }
}

/// Index of the first `.` at or after `i`, or the length if there is none.
pub open spec fn find_dot(s: Seq<char>, i: int) -> int
    decreases s.len() - i,
{
    if i < 0 || i >= s.len() {
        s.len() as int
    } else if s[i] == '.' {
        i
    } else {
        find_dot(s, i + 1)
    }
}

/// What parsing a version string returns. The text up to the first `.` must
/// be a number (else parsing fails); the second and third `.`-separated
/// fields yield the minor and patch values when they are numbers, and are
/// absent otherwise; anything after a fourth field is ignored.
pub open spec fn version_of(s: Seq<char>) -> Option<Version> {
    let d1 = find_dot(s, 0);
    match u64_of_digits(s.subrange(0, d1)) {
        None => None,
        Some(major) => if d1 == s.len() {
            Some(Version(major, None, None))
        } else {
            let d2 = find_dot(s, d1 + 1);
            let minor = u64_of_digits(s.subrange(d1 + 1, d2));
            if d2 == s.len() {
                Some(Version(major, minor, None))
            } else {
                let d3 = find_dot(s, d2 + 1);
                Some(Version(major, minor, u64_of_digits(s.subrange(d2 + 1, d3))))
            }
        },
    }
}

pub open spec fn opt_zero(o: Option<u64>) -> u64 {
    match o {
        Some(v) => v,
        None => 0,
    }
}

/// The ordering on versions: (major, minor-or-0, patch-or-0), lexicographic.
pub open spec fn cmp_of(a: Version, b: Version) -> Ordering {
    if a.0 != b.0 {
        if a.0 < b.0 {
            Ordering::Less
        } else {
            Ordering::Greater
        }
    } else if opt_zero(a.1) != opt_zero(b.1) {
        if opt_zero(a.1) < opt_zero(b.1) {
            Ordering::Less
        } else {
            Ordering::Greater
        }
    } else if opt_zero(a.2) != opt_zero(b.2) {
        if opt_zero(a.2) < opt_zero(b.2) {
            Ordering::Less
        } else {
            Ordering::Greater
        }
    } else {
        Ordering::Equal
    }
}

proof fn lemma_digits_val_nonneg(s: Seq<char>)
    requires
        all_digits(s),
    ensures
        digits_val(s) >= 0,
    decreases s.len(),
{
    if s.len() > 0 {
        assert(all_digits(s.drop_last())) by {
            assert(forall|i: int| 0 <= i < s.len() - 1 ==> s.drop_last()[i] == s[i]);
        }
        lemma_digits_val_nonneg(s.drop_last());
    }
}

proof fn lemma_digits_val_prefix(s: Seq<char>, m: int)
    requires
        all_digits(s),
        0 <= m <= s.len(),
    ensures
        digits_val(s.take(m)) <= digits_val(s),
    decreases s.len() - m,
{
    if m < s.len() {
        lemma_digits_val_prefix(s, m + 1);
        assert(s.take(m + 1).drop_last() =~= s.take(m));
        assert(all_digits(s.take(m))) by {
            assert(forall|i: int| 0 <= i < m ==> s.take(m)[i] == s[i]);
        }
        lemma_digits_val_nonneg(s.take(m));
        assert(digits_val(s.take(m + 1)) == digits_val(s.take(m)) * 10 + (s[m] as u32 - 48));
        assert(digits_val(s.take(m)) * 10 >= digits_val(s.take(m))) by {
            assert(digits_val(s.take(m)) * 10 == digits_val(s.take(m)) * 9 + digits_val(s.take(m)));
            assert(digits_val(s.take(m)) * 9 >= 0);
        }
    } else {
        assert(s.take(m) =~= s);
    }
}

proof fn lemma_step_no_overflow(val: u64, d: u64)
    requires
        d <= 9,
        val <= (u64::MAX - d) / 10,
    ensures
        val * 10 + d <= u64::MAX,
{
    let q = ((u64::MAX - d) / 10) as int;
    vstd::arithmetic::div_mod::lemma_fundamental_div_mod((u64::MAX - d) as int, 10);
    vstd::arithmetic::mul::lemma_mul_inequality(val as int, q, 10);
}

proof fn lemma_step_overflow(val: u64, d: u64)
    requires
        d <= 9,
        val > (u64::MAX - d) / 10,
    ensures
        val * 10 + d > u64::MAX,
{
    let q = ((u64::MAX - d) / 10) as int;
    vstd::arithmetic::div_mod::lemma_fundamental_div_mod((u64::MAX - d) as int, 10);
    vstd::arithmetic::mul::lemma_mul_inequality(q + 1, val as int, 10);
}

/// Parses the characters of `s` in `[from, to)` as a decimal `u64`.
fn parse_u64_range(s: &str, from: usize, to: usize) -> (r: Option<u64>)
    requires
        from <= to <= s@.len(),
    ensures
        r == u64_of_digits(s@.subrange(from as int, to as int)),
{
    let ghost seg = s@.subrange(from as int, to as int);
    let mut i = from;
    if i < to && s.get_char(i) == '+' {
        i = i + 1;
    }
    let ghost body = num_body(seg);
    proof {
        assert(body =~= s@.subrange(i as int, to as int));
    }
    if i == to {
        assert(body.len() == 0);
        return None;
    }
    let mut val: u64 = 0;
    let mut j = i;
    while j < to
        invariant
            from <= i <= j <= to <= s@.len(),
            body =~= s@.subrange(i as int, to as int),
            body == num_body(seg),
            seg == s@.subrange(from as int, to as int),
            i < to,
            all_digits(s@.subrange(i as int, j as int)),
            val == digits_val(s@.subrange(i as int, j as int)),
        decreases to - j,
    {
        let c = s.get_char(j);
        let u = c as u32;
        if u < 48 || u > 57 {
            assert(body[j - i] == s@[j as int]);
            assert(!is_digit(body[j - i]));
            return None;
        }
        let d = (u - 48) as u64;
        let ghost pre = s@.subrange(i as int, j as int);
        let ghost cur = s@.subrange(i as int, j + 1 as int);
        proof {
            assert(cur.drop_last() =~= pre);
            assert(cur.last() == s@[j as int]);
            assert(all_digits(cur)) by {
                assert(forall|k: int| 0 <= k < cur.len() - 1 ==> cur[k] == pre[k]);
            }
        }
        if val > (u64::MAX - d) / 10 {
            proof {
                lemma_step_overflow(val, d);
                assert(digits_val(cur) == val * 10 + d);
                if all_digits(body) && digits_val(body) <= u64::MAX {
                    lemma_digits_val_prefix(body, j + 1 - i);
                    assert(body.take(j + 1 - i) =~= cur);
                    assert(false);
                }
            }
            return None;
        }
        proof {
            lemma_step_no_overflow(val, d);
        }
        val = val * 10 + d;
        proof {
            assert(digits_val(cur) == digits_val(pre) * 10 + (cur.last() as u32 - 48));
        }
        j = j + 1;
    }
    proof {
        assert(body =~= s@.subrange(i as int, j as int));
        lemma_digits_val_nonneg(body);
    }
    Some(val)
}

/// Index of the first `.` in `s` at or after `from`, or the length.
fn find_dot_exec(s: &str, from: usize) -> (r: usize)
    requires
        from <= s@.len(),
    ensures
        r == find_dot(s@, from as int),
        from <= r <= s@.len(),
{
    let n = s.unicode_len();
    let mut i = from;
    while i < n
        invariant
            from <= i <= n == s@.len(),
            find_dot(s@, from as int) == find_dot(s@, i as int),
        decreases n - i,
    {
        if s.get_char(i) == '.' {
            return i;
        }
        assert(find_dot(s@, i as int) == find_dot(s@, i + 1 as int));
        i = i + 1;
    }
    i
}

impl Version {
    /// The major version.
    pub fn major(&self) -> (r: u64)
        ensures
            r == self.0,
    {
        self.0
    }

    /// The minor version, when one was given.
    pub fn minor(&self) -> (r: Option<u64>)
        ensures
            r == self.1,
    {
        self.1
    }

    /// The patch version, when one was given.
    pub fn revision(&self) -> (r: Option<u64>)
        ensures
            r == self.2,
    {
        self.2
    }

    /// Total comparison: missing minor or patch fields count as zero.
    pub fn cmp(&self, other: &Version) -> (r: Ordering)
        ensures
            r == cmp_of(*self, *other),
    {
        if self.0 != other.0 {
            if self.0 < other.0 {
                Ordering::Less
            } else {
                Ordering::Greater
            }
        } else {
            let a1 = match self.1 {
                Some(v) => v,
                None => 0,
            };
            let b1 = match other.1 {
                Some(v) => v,
                None => 0,
            };
            if a1 != b1 {
                if a1 < b1 {
                    Ordering::Less
                } else {
                    Ordering::Greater
                }
            } else {
                let a2 = match self.2 {
                    Some(v) => v,
                    None => 0,
                };
                let b2 = match other.2 {
                    Some(v) => v,
                    None => 0,
                };
                if a2 != b2 {
                    if a2 < b2 {
                        Ordering::Less
                    } else {
                        Ordering::Greater
                    }
                } else {
                    Ordering::Equal
                }
            }
        }
    }

    /// Parses `major[.minor[.patch]]`; fails when the major field is not a
    /// number, and drops a minor or patch field that is not one.
    pub fn from_str(s: &str) -> (r: Result<Version, ()>)
        ensures
            match version_of(s@) {
                Some(v) => r == Ok::<Version, ()>(v),
                None => r == Err::<Version, ()>(()),
            },
    {
        let n = s.unicode_len();
        let d1 = find_dot_exec(s, 0);
        let major = match parse_u64_range(s, 0, d1) {
            Some(v) => v,
            None => {
                return Err(());
            },
        };
        if d1 == n {
            return Ok(Version(major, None, None));
        }
        let d2 = find_dot_exec(s, d1 + 1);
        let minor = parse_u64_range(s, d1 + 1, d2);
        if d2 == n {
            return Ok(Version(major, minor, None));
        }
        let d3 = find_dot_exec(s, d2 + 1);
        let patch = parse_u64_range(s, d2 + 1, d3);
        Ok(Version(major, minor, patch))
    }
}

impl PartialEq for Version {
    /// Equality requires identical presence and value of every field.
    fn eq(&self, other: &Self) -> (r: bool) {
        let minor_eq = match (self.1, other.1) {
            (None, None) => true,
            (Some(a), Some(b)) => a == b,
            _ => false,
        };
        let patch_eq = match (self.2, other.2) {
            (None, None) => true,
            (Some(a), Some(b)) => a == b,
            _ => false,
        };
        self.0 == other.0 && minor_eq && patch_eq
    }
}

impl vstd::std_specs::cmp::PartialEqSpecImpl for Version {
    open spec fn obeys_eq_spec() -> bool {
        true
    }

    open spec fn eq_spec(&self, other: &Version) -> bool {
        self.0 == other.0 && self.1 == other.1 && self.2 == other.2
    }
}

impl PartialOrd for Version {
    /// Orders by (major, minor-or-0, patch-or-0), so `2.0` orders equal to
    /// `2` even though the two are not equal.
    fn partial_cmp(&self, other: &Self) -> (r: Option<Ordering>) {
        Some(self.cmp(other))
    }
}

impl vstd::std_specs::cmp::PartialOrdSpecImpl for Version {
    open spec fn obeys_partial_cmp_spec() -> bool {
        true
    }

    open spec fn partial_cmp_spec(&self, other: &Version) -> Option<Ordering> {
        Some(cmp_of(*self, *other))
    }
}

} // verus!
