//! Parsing of `name:command` configuration strings.
//!
//! The name is everything up to the first colon; the command is the
//! remainder with surrounding ASCII whitespace trimmed. A string without a
//! colon is a configuration error, reported as `None`; the caller treats it
//! as fatal.

use vstd::prelude::*;
use vstd::string::StrSliceExecFns;

verus! {

/// ASCII whitespace at a command's edges.
pub open spec fn is_ws(c: char) -> bool {
    c == ' ' || c == '\t' || c == '\n' || c == '\r'
}

/// Index of the first colon in `s`, if any.
pub open spec fn find_colon(s: Seq<char>) -> Option<int>
    decreases s.len(),
{
    if s.len() == 0 {
        None
    } else if s[0] == ':' {
        Some(0)
    } else {
        match find_colon(s.skip(1)) {
            Some(j) => Some(j + 1),
            None => None,
        }
    }
}

/// If `j` is the index of the first colon in `s`, `find_colon` finds it.
pub proof fn lemma_find_colon_is(s: Seq<char>, j: int)
    requires
        0 <= j < s.len(),
        s[j] == ':',
        forall|k: int| 0 <= k < j ==> s[k] != ':',
    ensures
        find_colon(s) == Some(j),
    decreases s.len(),
{
    if j == 0 {
    } else {
        let t = s.skip(1);
        assert(t[j - 1] == s[j]);
        assert forall|k: int| 0 <= k < j - 1 implies t[k] != ':' by {
            assert(t[k] == s[k + 1]);
        }
        lemma_find_colon_is(t, j - 1);
    }
}

/// A string without a colon makes `find_colon` return `None`.
pub proof fn lemma_find_colon_none(s: Seq<char>)
    requires
        forall|k: int| 0 <= k < s.len() ==> s[k] != ':',
    ensures
        find_colon(s) is None,
    decreases s.len(),
{
    if s.len() > 0 {
        let t = s.skip(1);
        assert forall|k: int| 0 <= k < t.len() implies t[k] != ':' by {
            assert(t[k] == s[k + 1]);
        }
        lemma_find_colon_none(t);
    }
}

/// The characters left after dropping leading ASCII whitespace.
pub open spec fn trim_start_chars(s: Seq<char>) -> Seq<char>
    decreases s.len(),
{
    if s.len() > 0 && is_ws(s[0]) {
        trim_start_chars(s.skip(1))
    } else {
        s
    }
}

/// The characters left after dropping trailing ASCII whitespace.
pub open spec fn trim_end_chars(s: Seq<char>) -> Seq<char>
    decreases s.len(),
{
    if s.len() > 0 && is_ws(s[s.len() - 1]) {
        trim_end_chars(s.take(s.len() - 1))
    } else {
        s
    }
}

/// The characters left after dropping ASCII whitespace at both ends.
pub open spec fn trim_chars(s: Seq<char>) -> Seq<char> {
    trim_end_chars(trim_start_chars(s))
}

/// Dropping exactly the leading whitespace run realizes `trim_start_chars`.
proof fn lemma_trim_start(t: Seq<char>, p: int)
    requires
        0 <= p <= t.len(),
        forall|k: int| 0 <= k < p ==> is_ws(t[k]),
        p < t.len() ==> !is_ws(t[p]),
    ensures
        trim_start_chars(t) == t.skip(p),
    decreases p,
{
    if p == 0 {
        assert(t.skip(0) =~= t);
    } else {
        assert(is_ws(t[0]));
        let u = t.skip(1);
        assert forall|k: int| 0 <= k < p - 1 implies is_ws(u[k]) by {
            assert(u[k] == t[k + 1]);
        }
        assert(p - 1 < u.len() ==> !is_ws(u[p - 1]));
        lemma_trim_start(u, p - 1);
        assert(u.skip(p - 1) =~= t.skip(p));
    }
}

/// Dropping exactly the trailing whitespace run realizes `trim_end_chars`.
proof fn lemma_trim_end(t: Seq<char>, q: int)
    requires
        0 <= q <= t.len(),
        forall|k: int| q <= k < t.len() ==> is_ws(t[k]),
        q > 0 ==> !is_ws(t[q - 1]),
    ensures
        trim_end_chars(t) == t.take(q),
    decreases t.len() - q,
{
    if q == t.len() {
        assert(t.take(q) =~= t);
    } else {
        assert(is_ws(t[t.len() - 1]));
        let u = t.take(t.len() - 1);
        assert forall|k: int| q <= k < u.len() implies is_ws(u[k]) by {
            assert(u[k] == t[k]);
        }
        lemma_trim_end(u, q);
        assert(u.take(q) =~= t.take(q));
    }
}

/// Whether a character is ASCII whitespace.
fn ws_char(c: char) -> (r: bool)
    ensures
        r == is_ws(c),
{
    c == ' ' || c == '\t' || c == '\n' || c == '\r'
}

/// Splits a `name:command` string: the name is everything before the first
/// colon, the command the remainder trimmed of surrounding ASCII
/// whitespace. `None` exactly when the string has no colon; the caller
/// treats that as a fatal configuration error.
pub fn command_with_name<'a>(s: &'a String) -> (r: Option<(&'a str, &'a str)>)
    ensures
        match find_colon(s@) {
            Some(j) => ({
                &&& r matches Some((name, cmd))
                &&& name@ == s@.take(j)
                &&& cmd@ == trim_chars(s@.skip(j + 1))
            }),
            None => r is None,
        },
{
    let n = s.as_str().unicode_len();
    let mut i: usize = 0;
    while i < n
        invariant
            0 <= i <= n,
            n == s@.len(),
            forall|k: int| 0 <= k < i ==> s@[k] != ':',
        decreases n - i,
    {
        if s.as_str().get_char(i) == ':' {
            proof {
                lemma_find_colon_is(s@, i as int);
            }
            let name = s.as_str().substring_char(0, i);
            let ghost t = s@.skip(i + 1);
            let mut a: usize = i + 1;
            while a < n && ws_char(s.as_str().get_char(a))
                invariant
                    i + 1 <= a <= n,
                    n == s@.len(),
                    forall|k: int| i + 1 <= k < a ==> is_ws(s@[k]),
                decreases n - a,
            {
                a = a + 1;
            }
            let mut b: usize = n;
            while b > a && ws_char(s.as_str().get_char(b - 1))
                invariant
                    a <= b <= n,
                    n == s@.len(),
                    forall|k: int| b <= k < n ==> is_ws(s@[k]),
                decreases b,
            {
                b = b - 1;
            }
            let cmd = s.as_str().substring_char(a, b);
            proof {
                let p = a - (i + 1);
                assert(forall|k: int| 0 <= k < t.len() ==> t[k] == s@[i + 1 + k]);
                assert forall|k: int| 0 <= k < p implies is_ws(t[k]) by {
                    assert(t[k] == s@[i + 1 + k]);
                }
                lemma_trim_start(t, p);
                let u = t.skip(p);
                assert(u =~= s@.subrange(a as int, n as int));
                let q = b - a;
                assert forall|k: int| q <= k < u.len() implies is_ws(u[k]) by {
                    assert(u[k] == s@[a + k]);
                }
                assert(q > 0 ==> !is_ws(u[q - 1]));
                lemma_trim_end(u, q);
                assert(u.take(q) =~= s@.subrange(a as int, b as int));
                assert(cmd@ == trim_chars(t));
            }
            return Some((name, cmd));
        }
        i = i + 1;
    }
    proof {
        lemma_find_colon_none(s@);
    }
    None
}

} // verus!
