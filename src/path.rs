use vstd::prelude::*;

use crate::error::{ErrorView, YakError};

verus! {

/// Position `i` opens a segment of `p`.
pub open spec fn seg_start(p: Seq<char>, i: int) -> bool {
    i == 0 || p[i - 1] == '/'
}

/// A task path: non-empty `/`-separated segments, none empty and none starting with `.`.
pub open spec fn valid_name(p: Seq<char>) -> bool {
    &&& p.len() > 0
    &&& p[p.len() - 1] != '/'
    &&& forall|i: int| 0 <= i < p.len() && #[trigger] seg_start(p, i) ==> p[i] != '/' && p[i] != '.'
}

/// `a` is a proper ancestor path of `p`.
pub open spec fn is_ancestor(a: Seq<char>, p: Seq<char>) -> bool {
    &&& a.len() < p.len()
    &&& p[a.len() as int] == '/'
    &&& p.subrange(0, a.len() as int) == a
}

/// `c` is `k` itself or lies in the subtree below `k`.
pub open spec fn under(c: Seq<char>, k: Seq<char>) -> bool {
    c == k || is_ancestor(k, c)
}

/// `c` sits exactly one level below `k`.
pub open spec fn is_direct_child(c: Seq<char>, k: Seq<char>) -> bool {
    &&& is_ancestor(k, c)
    &&& forall|i: int| k.len() < i < c.len() ==> c[i] != '/'
}

/// `t` occurs in `s` as a contiguous run of characters.
pub open spec fn is_substring(t: Seq<char>, s: Seq<char>) -> bool {
    exists|i: int| 0 <= i && i + t.len() <= s.len() && #[trigger] s.subrange(i, i + t.len()) == t
}

/// Checks the segment rules of a task path.
pub fn validate_yak_name(name: &str) -> (r: Result<(), YakError>)
    ensures
        r is Ok <==> valid_name(name@),
        r is Err ==> r->Err_0@ == ErrorView::InvalidName(name@),
{
    let n = name.unicode_len();
    if n == 0 || name.get_char(n - 1) == '/' {
        return Err(YakError::InvalidName(String::from_str(name)));
    }
    let mut i: usize = 0;
    while i < n
        invariant
            n == name@.len(),
            n > 0,
            name@[n - 1] != '/',
            i <= n,
            forall|j: int| 0 <= j < i && #[trigger] seg_start(name@, j) ==> name@[j] != '/' && name@[j] != '.',
        decreases n - i,
    {
        let c = name.get_char(i);
        let start = i == 0 || name.get_char(i - 1) == '/';
        if start && (c == '/' || c == '.') {
            assert(seg_start(name@, i as int));
            return Err(YakError::InvalidName(String::from_str(name)));
        }
        i += 1;
    }
    Ok(())
}

/// Character-wise equality of two strings.
pub fn same_text(a: &str, b: &str) -> (r: bool)
    ensures
        r == (a@ == b@),
{
    let n = a.unicode_len();
    if n != b.unicode_len() {
        return false;
    }
    let mut i: usize = 0;
    while i < n
        invariant
            n == a@.len(),
            n == b@.len(),
            i <= n,
            forall|j: int| 0 <= j < i ==> a@[j] == b@[j],
        decreases n - i,
    {
        if a.get_char(i) != b.get_char(i) {
            return false;
        }
        i += 1;
    }
    assert(a@ =~= b@);
    true
}

/// Whether `t` occurs in `s`.
pub fn contains_text(s: &str, t: &str) -> (r: bool)
    ensures
        r == is_substring(t@, s@),
{
    let n = s.unicode_len();
    let m = t.unicode_len();
    if m > n {
        return false;
    }
    let mut i: usize = 0;
    while i <= n - m
        invariant
            n == s@.len(),
            m == t@.len(),
            m <= n,
            i <= n - m + 1,
            forall|p: int| 0 <= p < i ==> #[trigger] s@.subrange(p, p + m) != t@,
        decreases n - m + 1 - i,
    {
        let mut j: usize = 0;
        let mut ok = true;
        while j < m
            invariant
                n == s@.len(),
                m == t@.len(),
                i + m <= n,
                j <= m,
                ok ==> forall|q: int| 0 <= q < j ==> s@[i + q] == t@[q],
                !ok ==> s@.subrange(i as int, i + m) != t@,
            decreases m - j,
        {
            if ok && s.get_char(i + j) != t.get_char(j) {
                ok = false;
                assert(s@.subrange(i as int, i + m)[j as int] != t@[j as int]);
            }
            j += 1;
        }
        if ok {
            assert(s@.subrange(i as int, i + m) =~= t@);
            return true;
        }
        if i == n - m {
            return false;
        }
        i += 1;
    }
    false
}

/// Whether `c` is `k` or lies below it.
pub fn is_under(c: &str, k: &str) -> (r: bool)
    ensures
        r == under(c@, k@),
{
    let n = c.unicode_len();
    let m = k.unicode_len();
    if n < m {
        return false;
    }
    if n > m && c.get_char(m) != '/' {
        return false;
    }
    let mut i: usize = 0;
    while i < m
        invariant
            n == c@.len(),
            m == k@.len(),
            m <= n,
            i <= m,
            forall|j: int| 0 <= j < i ==> c@[j] == k@[j],
        decreases m - i,
    {
        if c.get_char(i) != k.get_char(i) {
            assert(c@.subrange(0, m as int)[i as int] != k@[i as int]);
            return false;
        }
        i += 1;
    }
    assert(c@.subrange(0, m as int) =~= k@);
    if n == m {
        assert(c@ =~= k@);
    }
    true
}

/// Whether `c` sits exactly one level below `k`.
pub fn is_direct_child_of(c: &str, k: &str) -> (r: bool)
    ensures
        r == is_direct_child(c@, k@),
{
    let n = c.unicode_len();
    let m = k.unicode_len();
    if n <= m || !is_under(c, k) {
        return false;
    }
    let mut i: usize = m + 1;
    while i < n
        invariant
            n == c@.len(),
            m == k@.len(),
            m < n,
            m + 1 <= i <= n,
            forall|j: int| m < j < i ==> c@[j] != '/',
        decreases n - i,
    {
        if c.get_char(i) == '/' {
            return false;
        }
        i += 1;
    }
    true
}

} // verus!
