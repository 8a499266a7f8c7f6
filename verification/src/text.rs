//! Small executable helpers over strings, proved against their views.

use vstd::prelude::*;
use vstd::string::*;
use crate::numbers::{is_digit, is_digit_char};

verus! {

/// Character-wise string equality, specified over the views.
pub fn str_eq(a: &str, b: &str) -> (r: bool)
    ensures
        r == (a@ == b@),
{
    let na = a.unicode_len();
    let nb = b.unicode_len();
    if na != nb {
        return false;
    }
    let mut i: usize = 0;
    while i < na
        invariant
            na == a@.len(),
            na == b@.len(),
            i <= na,
            forall|j: int| 0 <= j < i ==> a@[j] == b@[j],
        decreases na - i,
    {
        if a.get_char(i) != b.get_char(i) {
            return false;
        }
        i = i + 1;
    }
    proof {
        assert(a@ =~= b@);
    }
    true
}

/// Whether `s@` starts with `p@`, specified over the views.
pub fn starts_with(s: &str, p: &str) -> (r: bool)
    ensures
        r == (p@.len() <= s@.len() && s@.subrange(0, p@.len() as int) == p@),
{
    let ns = s.unicode_len();
    let np = p.unicode_len();
    if np > ns {
        return false;
    }
    let mut i: usize = 0;
    while i < np
        invariant
            np == p@.len(),
            ns == s@.len(),
            np <= ns,
            i <= np,
            forall|j: int| 0 <= j < i ==> s@[j] == p@[j],
        decreases np - i,
    {
        if s.get_char(i) != p.get_char(i) {
            proof {
                assert(s@.subrange(0, p@.len() as int)[i as int] != p@[i as int]);
            }
            return false;
        }
        i = i + 1;
    }
    proof {
        assert(s@.subrange(0, p@.len() as int) =~= p@);
    }
    true
}

/// The code point an ASCII letter lowercases to; other characters map to
/// themselves.
pub open spec fn lower_code(c: char) -> int {
    if 'A' <= c && c <= 'Z' {
        c as int + 32
    } else {
        c as int
    }
}

/// ASCII-case-insensitive string equality.
pub open spec fn ci_eq(a: Seq<char>, b: Seq<char>) -> bool {
    a.len() == b.len() && forall|i: int| 0 <= i < a.len() ==> lower_code(#[trigger] a[i])
        == lower_code(#[trigger] b[i])
}

fn lower_u32(c: char) -> (r: u32)
    ensures
        r == lower_code(c),
{
    if 'A' <= c && c <= 'Z' {
        c as u32 + 32
    } else {
        c as u32
    }
}

/// Character-wise string equality up to ASCII case, specified over the
/// views.
pub fn str_eq_ci(a: &str, b: &str) -> (r: bool)
    ensures
        r == ci_eq(a@, b@),
{
    let na = a.unicode_len();
    let nb = b.unicode_len();
    if na != nb {
        return false;
    }
    let mut i: usize = 0;
    while i < na
        invariant
            na == a@.len(),
            na == b@.len(),
            i <= na,
            forall|j: int| 0 <= j < i ==> lower_code(#[trigger] a@[j]) == lower_code(
                #[trigger] b@[j],
            ),
        decreases na - i,
    {
        if lower_u32(a.get_char(i)) != lower_u32(b.get_char(i)) {
            return false;
        }
        i = i + 1;
    }
    true
}

/// Matches the exact text `pat` at position `i` of `s`: returns the
/// position just past it exactly when it is there.
pub fn expect_lit(s: &str, i: usize, pat: &str) -> (r: Option<usize>)
    requires
        i <= s@.len(),
    ensures
        (r matches Some(j) ==> j == i + pat@.len() && j <= s@.len() && s@.subrange(
            i as int,
            j as int,
        ) == pat@),
        (r is None ==> !(i + pat@.len() <= s@.len() && s@.subrange(i as int, i + pat@.len())
            == pat@)),
{
    let n = s.unicode_len();
    let m = pat.unicode_len();
    if n - i < m {
        return None;
    }
    let mut k: usize = 0;
    while k < m
        invariant
            i + m <= n,
            n == s@.len(),
            m == pat@.len(),
            k <= m,
            forall|t: int| 0 <= t < k ==> s@[i + t] == pat@[t],
        decreases m - k,
    {
        if s.get_char(i + k) != pat.get_char(k) {
            proof {
                assert(s@.subrange(i as int, i + pat@.len())[k as int] != pat@[k as int]);
            }
            return None;
        }
        k = k + 1;
    }
    proof {
        assert(s@.subrange(i as int, i + pat@.len()) =~= pat@);
    }
    Some(i + m)
}

/// Finds the first `"` at or after position `i`.
pub fn scan_to_quote(s: &str, i: usize) -> (r: Option<usize>)
    requires
        i <= s@.len(),
    ensures
        (r matches Some(j) ==> i <= j < s@.len() && s@[j as int] == '"' && forall|k: int|
            i <= k < j ==> s@[k] != '"'),
        (r is None ==> forall|k: int| i <= k < s@.len() ==> s@[k] != '"'),
{
    let n = s.unicode_len();
    let mut j: usize = i;
    while j < n
        invariant
            i <= j <= n,
            n == s@.len(),
            forall|k: int| i <= k < j ==> s@[k] != '"',
        decreases n - j,
    {
        if s.get_char(j) == '"' {
            return Some(j);
        }
        j = j + 1;
    }
    None
}

/// Scans past an optional minus sign and then as many digits as there
/// are, starting at `i`.
#[verifier::loop_isolation(false)]
pub fn scan_number_end(s: &str, i: usize) -> (j: usize)
    requires
        i <= s@.len(),
    ensures
        ({
            let start_d: int = if i < s@.len() && s@[i as int] == '-' {
                i as int + 1
            } else {
                i as int
            };
            &&& i <= j <= s@.len()
            &&& start_d <= j
            &&& forall|k: int| start_d <= k < j ==> is_digit(#[trigger] s@[k])
            &&& (j < s@.len() ==> !is_digit(s@[j as int]))
        }),
{
    let n = s.unicode_len();
    let mut j: usize = i;
    if j < n && s.get_char(j) == '-' {
        j = j + 1;
    }
    let ghost start_d = j as int;
    while j < n
        invariant
            start_d <= j <= n,
            n == s@.len(),
            forall|k: int| start_d <= k < j ==> is_digit(#[trigger] s@[k]),
        decreases n - j,
    {
        if !is_digit_char(s.get_char(j)) {
            return j;
        }
        j = j + 1;
    }
    j
}

/// Whether `s@` ends with `p@`, specified over the views.
pub fn ends_with(s: &str, p: &str) -> (r: bool)
    ensures
        r == (p@.len() <= s@.len() && s@.subrange(s@.len() - p@.len(), s@.len() as int)
            == p@),
{
    let ns = s.unicode_len();
    let np = p.unicode_len();
    if np > ns {
        return false;
    }
    let base = ns - np;
    let mut i: usize = 0;
    while i < np
        invariant
            np == p@.len(),
            ns == s@.len(),
            np <= ns,
            base == ns - np,
            i <= np,
            forall|j: int| 0 <= j < i ==> s@[base + j] == p@[j],
        decreases np - i,
    {
        if s.get_char(base + i) != p.get_char(i) {
            proof {
                assert(s@.subrange(s@.len() - p@.len(), s@.len() as int)[i as int]
                    != p@[i as int]);
            }
            return false;
        }
        i = i + 1;
    }
    proof {
        assert(s@.subrange(s@.len() - p@.len(), s@.len() as int) =~= p@);
    }
    true
}

/// Strict lexicographic order on character sequences, by code point.
pub open spec fn lex_lt(a: Seq<char>, b: Seq<char>) -> bool
    decreases a.len(),
{
    if b.len() == 0 {
        false
    } else if a.len() == 0 {
        true
    } else if a[0] != b[0] {
        (a[0] as int) < (b[0] as int)
    } else {
        lex_lt(a.drop_first(), b.drop_first())
    }
}

/// Of two strings, either one precedes the other or they are equal, and
/// never more than one of the three.
pub proof fn lemma_lex_trichotomy(a: Seq<char>, b: Seq<char>)
    ensures
        lex_lt(a, b) || lex_lt(b, a) || a == b,
        lex_lt(a, b) ==> !lex_lt(b, a) && a != b,
        lex_lt(b, a) ==> a != b,
    decreases a.len(),
{
    if a.len() == 0 && b.len() == 0 {
        assert(a =~= b);
    } else if a.len() > 0 && b.len() > 0 {
        if a[0] == b[0] {
            lemma_lex_trichotomy(a.drop_first(), b.drop_first());
            if a.drop_first() == b.drop_first() {
                assert(a =~= b) by {
                    assert forall|x: int| 0 <= x < a.len() implies a[x] == b[x] by {
                        if x > 0 {
                            assert(a.drop_first()[x - 1] == b.drop_first()[x - 1]);
                        }
                    }
                }
            }
            if a == b {
                assert(a.drop_first() =~= b.drop_first());
            }
        }
    }
}

/// The order is transitive.
pub proof fn lemma_lex_trans(a: Seq<char>, b: Seq<char>, c: Seq<char>)
    requires
        lex_lt(a, b),
        lex_lt(b, c),
    ensures
        lex_lt(a, c),
    decreases a.len(),
{
    if a.len() > 0 && b.len() > 0 && c.len() > 0 {
        if a[0] == b[0] && b[0] == c[0] {
            lemma_lex_trans(a.drop_first(), b.drop_first(), c.drop_first());
        }
    }
}

/// Lexicographic comparison of two strings, specified over the views.
#[verifier::loop_isolation(false)]
pub fn str_lt(a: &str, b: &str) -> (r: bool)
    ensures
        r == lex_lt(a@, b@),
{
    let na = a.unicode_len();
    let nb = b.unicode_len();
    let mut i: usize = 0;
    proof {
        assert(a@.skip(0) =~= a@);
        assert(b@.skip(0) =~= b@);
    }
    while i < na && i < nb
        invariant
            i <= na,
            i <= nb,
            lex_lt(a@, b@) == lex_lt(a@.skip(i as int), b@.skip(i as int)),
        decreases na - i,
    {
        let ca = a.get_char(i);
        let cb = b.get_char(i);
        proof {
            assert(a@.skip(i as int)[0] == ca);
            assert(b@.skip(i as int)[0] == cb);
            assert(a@.skip(i as int).drop_first() =~= a@.skip(i as int + 1));
            assert(b@.skip(i as int).drop_first() =~= b@.skip(i as int + 1));
        }
        if ca != cb {
            return ca < cb;
        }
        i = i + 1;
    }
    proof {
        if i == na {
            assert(a@.skip(i as int) =~= Seq::<char>::empty());
        }
        if i == nb {
            assert(b@.skip(i as int) =~= Seq::<char>::empty());
        }
    }
    na < nb
}

} // verus!
