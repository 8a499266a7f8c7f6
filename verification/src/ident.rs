//! Namespaced identifiers of the form `namespace:path`, their validation
//! rule, and qualification of bare resource names with the default
//! namespace.

use vstd::prelude::*;
use vstd::string::*;
use vstd::assert_by_contradiction;

verus! {

/// Characters allowed in the namespace part of an identifier.
pub open spec fn namespace_char(c: char) -> bool {
    ('a' <= c && c <= 'z') || ('0' <= c && c <= '9') || c == '_' || c == '-' || c == '.'
}

/// Characters allowed in the path part: the namespace characters plus `/`.
pub open spec fn path_char(c: char) -> bool {
    namespace_char(c) || c == '/'
}

/// `i` splits `s` into a well-formed identifier: a non-empty namespace of
/// namespace characters, a `:` at position `i`, and a non-empty path of
/// path characters.  Neither character class contains `:`, so at most one
/// position can split a given string this way.
pub open spec fn valid_split(s: Seq<char>, i: int) -> bool {
    &&& 1 <= i
    &&& i + 1 < s.len()
    &&& s[i] == ':'
    &&& (forall|j: int| 0 <= j < i ==> namespace_char(#[trigger] s[j]))
    &&& (forall|j: int| i < j < s.len() ==> path_char(#[trigger] s[j]))
}

/// A string is a valid identifier when some position splits it into a
/// namespace and a path.
pub open spec fn spec_validate(s: Seq<char>) -> bool {
    exists|i: int| valid_split(s, i)
}

/// Whether the string contains a `:` anywhere.
pub open spec fn spec_has_colon(s: Seq<char>) -> bool {
    exists|i: int| 0 <= i < s.len() && #[trigger] s[i] == ':'
}

/// A bare resource name is qualified with the default namespace; a name
/// that already has a `:` is left unchanged.
pub open spec fn spec_qualify(s: Seq<char>) -> Seq<char> {
    if spec_has_colon(s) {
        s
    } else {
        "minestuck:"@ + s
    }
}

fn is_namespace_char(c: char) -> (r: bool)
    ensures
        r == namespace_char(c),
{
    ('a' <= c && c <= 'z') || ('0' <= c && c <= '9') || c == '_' || c == '-' || c == '.'
}

fn is_path_char(c: char) -> (r: bool)
    ensures
        r == path_char(c),
{
    is_namespace_char(c) || c == '/'
}

/// Index of the first `:` in `id`, or the length of `id` if there is none.
fn find_colon(id: &str) -> (c: usize)
    ensures
        c <= id@.len(),
        forall|j: int| 0 <= j < c ==> id@[j] != ':',
        c < id@.len() ==> id@[c as int] == ':',
{
    let n = id.unicode_len();
    let mut c: usize = 0;
    while c < n && id.get_char(c) != ':'
        invariant
            c <= n,
            n == id@.len(),
            forall|j: int| 0 <= j < c ==> id@[j] != ':',
        decreases n - c,
    {
        c = c + 1;
    }
    c
}

/// Whether `id` is a well-formed `namespace:path` identifier.
pub fn validate_resource_location(id: &str) -> (r: bool)
    ensures
        r == spec_validate(id@),
{
    let ghost s = id@;
    let n = id.unicode_len();
    let c = find_colon(id);
    if c == n {
        proof {
            assert_by_contradiction!(!spec_validate(s), {
                let i = choose|i: int| valid_split(s, i);
                assert(s[i] == ':');
            });
        }
        return false;
    }
    if c == 0 {
        proof {
            assert_by_contradiction!(!spec_validate(s), {
                let i = choose|i: int| valid_split(s, i);
                assert(namespace_char(s[0]));
            });
        }
        return false;
    }
    if c + 1 == n {
        proof {
            assert_by_contradiction!(!spec_validate(s), {
                let i = choose|i: int| valid_split(s, i);
                // a witness lies strictly before the last position, hence
                // strictly before the first colon, which has no colon
                assert(i < c);
                assert(s[i] == ':');
            });
        }
        return false;
    }
    let mut j: usize = 0;
    while j < c
        invariant
            c < n,
            n == s.len(),
            s == id@,
            s[c as int] == ':',
            forall|m: int| 0 <= m < c ==> s[m] != ':',
            forall|k: int| 0 <= k < j ==> namespace_char(#[trigger] s[k]),
        decreases c - j,
    {
        if !is_namespace_char(id.get_char(j)) {
            proof {
                assert_by_contradiction!(!spec_validate(s), {
                    let i = choose|i: int| valid_split(s, i);
                    // no colon strictly before c, so the witness is at least c
                    assert(s[i] == ':');
                    assert(i >= c);
                    assert(namespace_char(s[j as int]));
                });
            }
            return false;
        }
        j = j + 1;
    }
    let mut k: usize = c + 1;
    while k < n
        invariant
            0 < c,
            c + 1 < n,
            n == s.len(),
            s == id@,
            c + 1 <= k <= n,
            s[c as int] == ':',
            forall|m: int| 0 <= m < c ==> s[m] != ':',
            forall|m: int| c < m < k ==> path_char(#[trigger] s[m]),
        decreases n - k,
    {
        if !is_path_char(id.get_char(k)) {
            proof {
                assert_by_contradiction!(!spec_validate(s), {
                    let i = choose|i: int| valid_split(s, i);
                    assert(s[i] == ':');
                    assert(i >= c);
                    // a witness beyond c would need the colon at c to be a
                    // namespace character
                    if i > c {
                        assert(namespace_char(s[c as int]));
                    }
                    assert(i == c);
                    assert(path_char(s[k as int]));
                });
            }
            return false;
        }
        k = k + 1;
    }
    proof {
        assert(valid_split(s, c as int));
    }
    true
}

/// Qualifies a grist resource name: adds the default `minestuck` namespace
/// when the name has no `:`.
pub fn grist_resource(id: &str) -> (r: String)
    ensures
        r@ == spec_qualify(id@),
{
    let n = id.unicode_len();
    let c = find_colon(id);
    if c < n {
        proof {
            assert(spec_has_colon(id@));
        }
        String::from_str(id)
    } else {
        proof {
            assert_by_contradiction!(!spec_has_colon(id@), {
                let i = choose|i: int| 0 <= i < id@.len() && #[trigger] id@[i] == ':';
            });
        }
        let mut r = String::from_str("minestuck:");
        r.append(id);
        r
    }
}

/// A string without a `:` is never a valid identifier.
pub proof fn lemma_validate_requires_colon(s: Seq<char>)
    requires
        forall|i: int| 0 <= i < s.len() ==> s[i] != ':',
    ensures
        !spec_validate(s),
{
    assert_by_contradiction!(!spec_validate(s), {
        let i = choose|i: int| valid_split(s, i);
        assert(s[i] == ':');
    });
}

/// A `namespace:path` string built from non-empty parts drawn from the
/// allowed character classes is always a valid identifier.
pub proof fn lemma_validate_well_formed(ns: Seq<char>, path: Seq<char>)
    requires
        ns.len() >= 1,
        path.len() >= 1,
        forall|j: int| 0 <= j < ns.len() ==> namespace_char(#[trigger] ns[j]),
        forall|j: int| 0 <= j < path.len() ==> path_char(#[trigger] path[j]),
    ensures
        spec_validate(ns + seq![':'] + path),
{
    let s = ns + seq![':'] + path;
    assert(s[ns.len() as int] == ':');
    assert forall|j: int| 0 <= j < ns.len() implies namespace_char(#[trigger] s[j]) by {
        assert(s[j] == ns[j]);
    }
    assert forall|j: int| ns.len() < j < s.len() implies path_char(#[trigger] s[j]) by {
        assert(s[j] == path[j - ns.len() - 1]);
    }
    assert(valid_split(s, ns.len() as int));
}

/// Qualification is idempotent: a qualified name always has a colon.
pub proof fn lemma_qualify_idempotent(s: Seq<char>)
    ensures
        spec_qualify(spec_qualify(s)) == spec_qualify(s),
{
    if !spec_has_colon(s) {
        reveal_strlit("minestuck:");
        let q = "minestuck:"@ + s;
        assert(q[9] == ':');
        assert(spec_has_colon(q));
    }
}

} // verus!
