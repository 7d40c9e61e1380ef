//! Verified string utilities: comparison, substring search, replacement and
//! path-style joining, all specified over `Seq<char>` views.

use vstd::prelude::*;
use vstd::string::*;

verus! {

/// `sub` occurs in `s` at position `i`.
pub open spec fn occurs_at(s: Seq<char>, sub: Seq<char>, i: int) -> bool {
    &&& 0 <= i
    &&& i + sub.len() <= s.len()
    &&& s.subrange(i, i + sub.len()) == sub
}

/// `sub` occurs somewhere in `s`.
pub open spec fn spec_contains(s: Seq<char>, sub: Seq<char>) -> bool {
    exists|i: int| occurs_at(s, sub, i)
}

/// `s` ends with `t`.
pub open spec fn spec_ends_with(s: Seq<char>, t: Seq<char>) -> bool {
    t.len() <= s.len() && s.subrange(s.len() - t.len(), s.len() as int) == t
}

/// Character-for-character string equality.
pub fn eq_str(a: &str, b: &str) -> (r: bool)
    ensures
        r == (a@ == b@),
{
    let alen = a.unicode_len();
    let blen = b.unicode_len();
    if alen != blen {
        return false;
    }
    let mut i: usize = 0;
    while i < alen
        invariant
            i <= alen,
            alen == a@.len(),
            alen == b@.len(),
            forall|j: int| 0 <= j < i ==> a@[j] == b@[j],
        decreases alen - i,
    {
        if a.get_char(i) != b.get_char(i) {
            return false;
        }
        i = i + 1;
    }
    proof {
        assert(a@ =~= b@);
    }
    true
}

/// Whether `sub` occurs in `s` at position `i`.
pub fn match_at(s: &str, sub: &str, i: usize) -> (r: bool)
    requires
        i + sub@.len() <= s@.len(),
    ensures
        r == occurs_at(s@, sub@, i as int),
{
    let slen = s.unicode_len();
    let sublen = sub.unicode_len();
    let mut j: usize = 0;
    while j < sublen
        invariant
            j <= sublen,
            slen == s@.len(),
            sublen == sub@.len(),
            i + sublen <= slen,
            forall|k: int| 0 <= k < j ==> s@[i + k] == sub@[k],
        decreases sublen - j,
    {
        if s.get_char(i + j) != sub.get_char(j) {
            proof {
                assert(!occurs_at(s@, sub@, i as int)) by {
                    if occurs_at(s@, sub@, i as int) {
                        assert(s@.subrange(i as int, i + sub@.len())[j as int] == s@[i + j]);
                    }
                }
            }
            return false;
        }
        j = j + 1;
    }
    proof {
        assert(s@.subrange(i as int, i + sub@.len()) =~= sub@);
    }
    true
}

/// The first position at which `sub` occurs in `s`, if any.
pub fn find_sub(s: &str, sub: &str) -> (r: Option<usize>)
    ensures
        match r {
            Some(i) => occurs_at(s@, sub@, i as int) && forall|j: int|
                0 <= j < i ==> !occurs_at(s@, sub@, j),
            None => forall|j: int| !occurs_at(s@, sub@, j),
        },
{
    let slen = s.unicode_len();
    let sublen = sub.unicode_len();
    if sublen > slen {
        return None;
    }
    if sublen == 0 {
        proof {
            assert(s@.subrange(0, 0) =~= sub@);
        }
        return Some(0);
    }
    let mut i: usize = 0;
    while i <= slen - sublen
        invariant
            slen == s@.len(),
            sublen == sub@.len(),
            1 <= sublen <= slen,
            i <= slen - sublen + 1,
            forall|j: int| 0 <= j < i ==> !occurs_at(s@, sub@, j),
        decreases slen - sublen + 1 - i,
    {
        if match_at(s, sub, i) {
            return Some(i);
        }
        i = i + 1;
    }
    None
}

/// Whether `sub` occurs somewhere in `s`.
pub fn contains_sub(s: &str, sub: &str) -> (r: bool)
    ensures
        r == spec_contains(s@, sub@),
{
    find_sub(s, sub).is_some()
}

/// Whether `s` ends with `suffix`.
pub fn ends_with_sub(s: &str, suffix: &str) -> (r: bool)
    ensures
        r == spec_ends_with(s@, suffix@),
{
    let slen = s.unicode_len();
    let sublen = suffix.unicode_len();
    if sublen > slen {
        return false;
    }
    match_at(s, suffix, slen - sublen)
}

/// The last position at which `c` occurs in `s`, defined from the end.
pub open spec fn spec_last_index(s: Seq<char>, c: char) -> Option<int>
    decreases s.len(),
{
    if s.len() == 0 {
        None
    } else if s.last() == c {
        Some(s.len() - 1)
    } else {
        spec_last_index(s.drop_last(), c)
    }
}

/// What `spec_last_index` means position-wise.
pub proof fn lemma_last_index(s: Seq<char>, c: char)
    ensures
        match spec_last_index(s, c) {
            Some(i) => 0 <= i < s.len() && s[i] == c && forall|j: int|
                i < j < s.len() ==> s[j] != c,
            None => forall|j: int| 0 <= j < s.len() ==> s[j] != c,
        },
    decreases s.len(),
{
    if s.len() > 0 && s.last() != c {
        lemma_last_index(s.drop_last(), c);
        assert(forall|j: int| 0 <= j < s.len() - 1 ==> s[j] == s.drop_last()[j]);
    }
}

/// The last position at which `c` occurs in `s`, if any.
pub fn last_index_of(s: &str, c: char) -> (r: Option<usize>)
    ensures
        match r {
            Some(i) => spec_last_index(s@, c) == Some(i as int),
            None => spec_last_index(s@, c) is None,
        },
{
    proof {
        lemma_last_index(s@, c);
    }
    let slen = s.unicode_len();
    let mut i: usize = slen;
    while i > 0
        invariant
            i <= slen,
            slen == s@.len(),
            forall|j: int| i <= j < slen ==> s@[j] != c,
        decreases i,
    {
        i = i - 1;
        if s.get_char(i) == c {
            proof {
                lemma_last_index(s@, c);
                match spec_last_index(s@, c) {
                    Some(k) => {
                        assert(k == i as int) by {
                            if k < i as int {
                                assert(s@[i as int] != c);
                            }
                        }
                    },
                    None => {
                        assert(s@[i as int] != c);
                    },
                }
            }
            return Some(i);
        }
    }
    proof {
        if spec_last_index(s@, c) is Some {
            let k = spec_last_index(s@, c)->Some_0;
            assert(s@[k] != c);
        }
    }
    None
}

/// `s` with every non-overlapping occurrence of `pat` replaced by `rep`,
/// scanning left to right.
pub open spec fn spec_replace(s: Seq<char>, pat: Seq<char>, rep: Seq<char>) -> Seq<char>
    decreases s.len(),
{
    if pat.len() == 0 || s.len() == 0 {
        s
    } else if pat.len() <= s.len() && s.subrange(0, pat.len() as int) == pat {
        rep + spec_replace(s.skip(pat.len() as int), pat, rep)
    } else {
        s.take(1) + spec_replace(s.skip(1), pat, rep)
    }
}

/// Replace every occurrence of `pat` in `s` by `rep`, left to right and
/// without overlapping.
pub fn replace_all(s: &str, pat: &str, rep: &str) -> (r: String)
    requires
        pat@.len() >= 1,
    ensures
        r@ == spec_replace(s@, pat@, rep@),
{
    let slen = s.unicode_len();
    let patlen = pat.unicode_len();
    let mut out = String::new();
    let mut i: usize = 0;
    proof {
        assert(s@.skip(0) =~= s@);
        assert(out@ + spec_replace(s@, pat@, rep@) =~= spec_replace(s@, pat@, rep@));
    }
    while i < slen
        invariant
            i <= slen,
            slen == s@.len(),
            patlen == pat@.len(),
            patlen >= 1,
            spec_replace(s@, pat@, rep@) == out@ + spec_replace(
                s@.skip(i as int),
                pat@,
                rep@,
            ),
        decreases slen - i,
    {
        let ghost t = s@.skip(i as int);
        let ghost out0 = out@;
        if patlen <= slen - i && match_at(s, pat, i) {
            out.append(rep);
            proof {
                assert(t.subrange(0, pat@.len() as int) =~= s@.subrange(
                    i as int,
                    i + pat@.len(),
                ));
                assert(t.skip(pat@.len() as int) =~= s@.skip(i + pat@.len()));
                assert(spec_replace(t, pat@, rep@) == rep@ + spec_replace(
                    s@.skip(i + pat@.len()),
                    pat@,
                    rep@,
                ));
                assert(out@ + spec_replace(s@.skip(i + pat@.len()), pat@, rep@) =~= out0
                    + spec_replace(t, pat@, rep@));
            }
            i = i + patlen;
        } else {
            let piece = s.substring_char(i, i + 1);
            out.append(piece);
            proof {
                if patlen <= t.len() {
                    assert(t.subrange(0, pat@.len() as int) =~= s@.subrange(
                        i as int,
                        i + pat@.len(),
                    ));
                    assert(t.subrange(0, pat@.len() as int) != pat@);
                }
                assert(t.take(1) =~= s@.subrange(i as int, i + 1));
                assert(t.skip(1) =~= s@.skip(i + 1));
                assert(spec_replace(t, pat@, rep@) == t.take(1) + spec_replace(
                    s@.skip(i + 1),
                    pat@,
                    rep@,
                ));
                assert(out@ + spec_replace(s@.skip(i + 1), pat@, rep@) =~= out0 + spec_replace(
                    t,
                    pat@,
                    rep@,
                ));
            }
            i = i + 1;
        }
    }
    proof {
        assert(s@.skip(slen as int) =~= Seq::<char>::empty());
        assert(out@ =~= spec_replace(s@, pat@, rep@));
    }
    out
}

/// `dir`, a slash, then `name`.
pub open spec fn spec_join(dir: Seq<char>, name: Seq<char>) -> Seq<char> {
    dir + seq!['/'] + name
}

/// Join a directory path and an entry name with a slash.
pub fn join_path(dir: &str, name: &str) -> (r: String)
    ensures
        r@ == spec_join(dir@, name@),
{
    proof {
        reveal_strlit("/");
    }
    let mut out = dir.to_owned();
    out.append("/");
    out.append(name);
    proof {
        assert(out@ =~= spec_join(dir@, name@));
    }
    out
}

} // verus!
