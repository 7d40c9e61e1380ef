//! Relative-path computation for symlink targets: a link stores the path
//! from its own directory to the target, so relocating the whole graveyard
//! root keeps every link valid. The law at the end states that resolving
//! the computed relative path from the link's directory lands exactly on
//! the target.

use vstd::prelude::*;
use vstd::string::*;

use crate::paths::{lemma_views_push, views_of};

verus! {

/// The slash-separated components of a path, empty segments dropped.
pub open spec fn spec_components(s: Seq<char>) -> Seq<Seq<char>>
    decreases s.len(),
    via spec_components_dec
{
    if s.len() == 0 {
        Seq::empty()
    } else if s[0] == '/' {
        spec_components(s.skip(1))
    } else {
        match spec_first_index(s, '/') {
            Some(i) => seq![s.take(i)] + spec_components(s.skip(i + 1)),
            None => seq![s],
        }
    }
}

#[via_fn]
proof fn spec_components_dec(s: Seq<char>) {
    if s.len() > 0 && s[0] != '/' {
        lemma_first_index(s, '/');
    }
}

/// The first position at which `c` occurs in `s`.
pub open spec fn spec_first_index(s: Seq<char>, c: char) -> Option<int>
    decreases s.len(),
{
    if s.len() == 0 {
        None
    } else if s[0] == c {
        Some(0)
    } else {
        match spec_first_index(s.skip(1), c) {
            Some(i) => Some(i + 1),
            None => None,
        }
    }
}

/// What `spec_first_index` means position-wise.
pub proof fn lemma_first_index(s: Seq<char>, c: char)
    ensures
        match spec_first_index(s, c) {
            Some(i) => 0 <= i < s.len() && s[i] == c && forall|j: int| 0 <= j < i ==> s[j] != c,
            None => forall|j: int| 0 <= j < s.len() ==> s[j] != c,
        },
    decreases s.len(),
{
    if s.len() > 0 && s[0] != c {
        lemma_first_index(s.skip(1), c);
        assert(forall|j: int| 1 <= j < s.len() ==> s[j] == s.skip(1)[j - 1]);
    }
}

/// Split a path into its slash-separated components, dropping empty
/// segments.
pub fn split_components(s: &str) -> (r: Vec<String>)
    ensures
        views_of(r@) == spec_components(s@),
{
    let slen = s.unicode_len();
    let mut out: Vec<String> = Vec::new();
    let mut i: usize = 0;
    proof {
        assert(s@.skip(0) =~= s@);
        assert(views_of(out@) + spec_components(s@) =~~= spec_components(s@));
    }
    while i < slen
        invariant
            i <= slen,
            slen == s@.len(),
            spec_components(s@) =~~= views_of(out@) + spec_components(s@.skip(i as int)),
        decreases slen - i,
    {
        let ghost t = s@.skip(i as int);
        let ghost out0 = out@;
        if s.get_char(i) == '/' {
            proof {
                assert(t.skip(1) =~= s@.skip(i + 1));
            }
            i = i + 1;
        } else {
            let mut j: usize = i;
            while j < slen && s.get_char(j) != '/'
                invariant
                    i <= j <= slen,
                    slen == s@.len(),
                    forall|k: int| i <= k < j ==> s@[k] != '/',
                decreases slen - j,
            {
                j = j + 1;
            }
            let seg = s.substring_char(i, j);
            out.push(seg.to_owned());
            proof {
                lemma_first_index(t, '/');
                assert(forall|k: int| 0 <= k < j - i ==> t[k] == s@[i + k] && t[k] != '/');
                if j < slen {
                    assert(t[j - i] == '/');
                    match spec_first_index(t, '/') {
                        Some(m) => {
                            assert(m == j - i) by {
                                if m < j - i {
                                    assert(t[m] != '/');
                                }
                            }
                        },
                        None => {
                            assert(t[j - i] != '/');
                        },
                    }
                    assert(t.take(j - i) =~= s@.subrange(i as int, j as int));
                    assert(t.skip(j - i + 1) =~= s@.skip(j + 1));
                    assert(spec_components(t) =~~= seq![seg@] + spec_components(s@.skip(j + 1)));
                } else {
                    if spec_first_index(t, '/') is Some {
                        let m = spec_first_index(t, '/')->Some_0;
                        assert(t[m] != '/');
                    }
                    assert(t =~= s@.subrange(i as int, j as int));
                    assert(s@.skip(j as int) =~= Seq::<char>::empty());
                    assert(spec_components(t) =~~= seq![seg@] + spec_components(s@.skip(j as int)));
                }
                assert(views_of(out@) =~~= views_of(out0) + seq![seg@]);
            }
            if j < slen {
                i = j + 1;
            } else {
                i = j;
            }
        }
    }
    proof {
        assert(s@.skip(slen as int) =~= Seq::<char>::empty());
        assert(views_of(out@) =~~= spec_components(s@));
    }
    out
}

/// The length of the longest common prefix of two component lists.
pub open spec fn spec_common_len(a: Seq<Seq<char>>, b: Seq<Seq<char>>) -> nat
    decreases a.len(),
{
    if a.len() == 0 || b.len() == 0 || a[0] != b[0] {
        0
    } else {
        1 + spec_common_len(a.skip(1), b.skip(1))
    }
}

/// The common prefix length is a prefix length: bounded, matching below it
/// and differing right at it.
pub proof fn lemma_common_len(a: Seq<Seq<char>>, b: Seq<Seq<char>>)
    ensures
        spec_common_len(a, b) <= a.len(),
        spec_common_len(a, b) <= b.len(),
        forall|i: int| 0 <= i < spec_common_len(a, b) ==> a[i] == b[i],
        spec_common_len(a, b) < a.len() && spec_common_len(a, b) < b.len() ==> a[
            spec_common_len(a, b) as int
        ] != b[spec_common_len(a, b) as int],
    decreases a.len(),
{
    if a.len() > 0 && b.len() > 0 && a[0] == b[0] {
        lemma_common_len(a.skip(1), b.skip(1));
        assert(forall|i: int| 1 <= i < a.len() ==> a[i] == a.skip(1)[i - 1]);
        assert(forall|i: int| 1 <= i < b.len() ==> b[i] == b.skip(1)[i - 1]);
    }
}

/// The longest common prefix length of two component vectors.
pub fn common_len(a: &Vec<String>, b: &Vec<String>) -> (r: usize)
    ensures
        r as nat == spec_common_len(views_of(a@), views_of(b@)),
{
    let mut i: usize = 0;
    while i < a.len() && i < b.len() && a[i] == b[i]
        invariant
            i <= a@.len(),
            i <= b@.len(),
            forall|j: int| 0 <= j < i ==> a@[j]@ == b@[j]@,
        decreases a@.len() - i,
    {
        i = i + 1;
    }
    proof {
        let av = views_of(a@);
        let bv = views_of(b@);
        lemma_common_len(av, bv);
        let c = spec_common_len(av, bv);
        if c < (i as nat) {
            assert(av[c as int] != bv[c as int]);
            assert(a@[c as int]@ == b@[c as int]@);
        }
        if (i as nat) < c {
            assert(av[i as int] == bv[i as int]);
        }
    }
    i
}

/// `k` components of `..`.
pub open spec fn spec_ups(k: nat) -> Seq<Seq<char>> {
    Seq::new(k, |i: int| ".."@)
}

/// Components joined with single slashes.
pub open spec fn spec_join_components(comps: Seq<Seq<char>>) -> Seq<char>
    decreases comps.len(),
{
    if comps.len() == 0 {
        Seq::empty()
    } else if comps.len() == 1 {
        comps[0]
    } else {
        comps[0] + seq!['/'] + spec_join_components(comps.skip(1))
    }
}

/// Appending one more component appends a slash and the component.
pub proof fn lemma_join_push(comps: Seq<Seq<char>>, x: Seq<char>)
    requires
        comps.len() >= 1,
    ensures
        spec_join_components(comps.push(x)) == spec_join_components(comps) + seq!['/'] + x,
    decreases comps.len(),
{
    if comps.len() == 1 {
        reveal_with_fuel(spec_join_components, 3);
        assert(comps.push(x).skip(1) =~~= seq![x]);
        assert(comps.push(x)[0] == comps[0]);
        assert(spec_join_components(seq![x]) == x);
        assert(spec_join_components(comps.push(x)) =~= spec_join_components(comps) + seq!['/']
            + x);
    } else {
        lemma_join_push(comps.skip(1), x);
        assert(comps.push(x).skip(1) =~~= comps.skip(1).push(x));
        assert(comps.push(x)[0] == comps[0]);
        assert(comps[0] + seq!['/'] + (spec_join_components(comps.skip(1)) + seq!['/'] + x) =~= (
        comps[0] + seq!['/'] + spec_join_components(comps.skip(1))) + seq!['/'] + x);
    }
}

/// The relative path from the directory `from_dir` to `to_path`: enough
/// `..` steps to reach their common ancestor, then the remaining components
/// of the target. When the two coincide, the target's own file name.
pub open spec fn spec_relative_path(from_dir: Seq<char>, to_path: Seq<char>) -> Seq<char> {
    let f = spec_components(from_dir);
    let t = spec_components(to_path);
    let c = spec_common_len(f, t);
    let comps = spec_ups((f.len() - c) as nat) + t.skip(c as int);
    if comps.len() == 0 {
        if t.len() > 0 {
            t.last()
        } else {
            Seq::empty()
        }
    } else {
        spec_join_components(comps)
    }
}

/// Compute the relative path from `from_dir` (a directory) to `to_path`.
pub fn relative_path(from_dir: &str, to_path: &str) -> (r: String)
    ensures
        r@ == spec_relative_path(from_dir@, to_path@),
{
    proof {
        reveal_strlit("..");
        reveal_strlit("/");
    }
    let f = split_components(from_dir);
    let t = split_components(to_path);
    let c = common_len(&f, &t);
    proof {
        lemma_common_len(views_of(f@), views_of(t@));
    }
    let mut comps: Vec<String> = Vec::new();
    let ups = f.len() - c;
    let mut k: usize = 0;
    while k < ups
        invariant
            k <= ups,
            views_of(comps@) =~~= spec_ups(k as nat),
        decreases ups - k,
    {
        let ghost comps0 = comps@;
        comps.push(String::from_str(".."));
        proof {
            lemma_views_push(comps0, comps@.last());
            assert(views_of(comps@) =~~= spec_ups((k + 1) as nat));
        }
        k = k + 1;
    }
    let mut m: usize = c;
    while m < t.len()
        invariant
            c <= m <= t@.len(),
            views_of(comps@) =~~= spec_ups(ups as nat) + views_of(t@).subrange(c as int, m as int),
        decreases t@.len() - m,
    {
        let ghost comps0 = comps@;
        comps.push(t[m].clone());
        proof {
            lemma_views_push(comps0, comps@.last());
            assert(views_of(t@).subrange(c as int, m + 1) =~~= views_of(t@).subrange(
                c as int,
                m as int,
            ).push(t@[m as int]@));
            assert(views_of(comps@) =~~= spec_ups(ups as nat) + views_of(t@).subrange(
                c as int,
                m + 1,
            ));
        }
        m = m + 1;
    }
    proof {
        assert(views_of(t@).subrange(c as int, t@.len() as int) =~~= views_of(t@).skip(c as int));
        assert(views_of(comps@) =~~= spec_ups(ups as nat) + views_of(t@).skip(c as int));
    }
    if comps.len() == 0 {
        if t.len() > 0 {
            let last = t[t.len() - 1].clone();
            proof {
                assert(views_of(t@).last() == t@[t@.len() - 1]@);
            }
            last
        } else {
            String::new()
        }
    } else {
        join_components(&comps)
    }
}

/// Join components with single slashes.
pub fn join_components(comps: &Vec<String>) -> (r: String)
    requires
        comps@.len() >= 1,
    ensures
        r@ == spec_join_components(views_of(comps@)),
{
    proof {
        reveal_strlit("/");
    }
    let mut out = comps[0].clone();
    let mut i: usize = 1;
    proof {
        assert(views_of(comps@).subrange(0, 1) =~~= seq![comps@[0]@]);
    }
    while i < comps.len()
        invariant
            1 <= i <= comps@.len(),
            out@ == spec_join_components(views_of(comps@).subrange(0, i as int)),
        decreases comps@.len() - i,
    {
        out.append("/");
        out.append(comps[i].as_str());
        proof {
            reveal_strlit("/");
            assert(views_of(comps@).subrange(0, i + 1) =~~= views_of(comps@).subrange(
                0,
                i as int,
            ).push(comps@[i as int]@));
            lemma_join_push(views_of(comps@).subrange(0, i as int), comps@[i as int]@);
            assert("/"@ =~= seq!['/']);
        }
        i = i + 1;
    }
    proof {
        assert(views_of(comps@).subrange(0, comps@.len() as int) =~~= views_of(comps@));
    }
    out
}

/// Resolve a relative component list against a base directory's
/// components: `..` pops the last component, anything else is entered.
pub open spec fn spec_resolve(base: Seq<Seq<char>>, rel: Seq<Seq<char>>) -> Seq<Seq<char>>
    decreases rel.len(),
{
    if rel.len() == 0 {
        base
    } else if rel[0] == ".."@ {
        spec_resolve(
            if base.len() > 0 {
                base.drop_last()
            } else {
                base
            },
            rel.skip(1),
        )
    } else {
        spec_resolve(base.push(rel[0]), rel.skip(1))
    }
}

proof fn lemma_resolve_ups(base: Seq<Seq<char>>, k: nat)
    requires
        k <= base.len(),
    ensures
        spec_resolve(base, spec_ups(k)) == base.take(base.len() - k),
    decreases k,
{
    if k == 0 {
        assert(spec_ups(0).len() == 0);
        assert(base.take(base.len() as int) =~~= base);
    } else {
        assert(spec_ups(k)[0] == ".."@);
        assert(spec_ups(k).skip(1) =~~= spec_ups((k - 1) as nat));
        lemma_resolve_ups(base.drop_last(), (k - 1) as nat);
        assert(base.drop_last().take(base.len() - k) =~~= base.take(base.len() - k));
    }
}

proof fn lemma_resolve_append(base: Seq<Seq<char>>, comps: Seq<Seq<char>>)
    requires
        forall|i: int| 0 <= i < comps.len() ==> comps[i] != ".."@,
    ensures
        spec_resolve(base, comps) == base + comps,
    decreases comps.len(),
{
    if comps.len() == 0 {
        assert(base + comps =~~= base);
    } else {
        assert(comps[0] != ".."@);
        lemma_resolve_append(base.push(comps[0]), comps.skip(1));
        assert(base.push(comps[0]) + comps.skip(1) =~~= base + comps);
    }
}

/// The law the Link Weaver rests on: resolving the computed relative
/// components from the link's own directory reaches exactly the target's
/// components — so the links stay valid wherever the graveyard root moves.
/// Targets whose remaining components are themselves `..` steps are left
/// out: such paths do not name a fixed location.
pub proof fn lemma_relative_path_resolves(f: Seq<Seq<char>>, t: Seq<Seq<char>>)
    requires
        forall|i: int| spec_common_len(f, t) <= i < t.len() ==> t[i] != ".."@,
    ensures
        spec_resolve(f, spec_ups((f.len() - spec_common_len(f, t)) as nat) + t.skip(
            spec_common_len(f, t) as int,
        )) == t,
{
    let c = spec_common_len(f, t);
    lemma_common_len(f, t);
    let ups = spec_ups((f.len() - c) as nat);
    let rest = t.skip(c as int);
    assert(spec_resolve(f, ups + rest) == spec_resolve(spec_resolve(f, ups), rest)) by {
        lemma_resolve_concat(f, ups, rest);
    }
    lemma_resolve_ups(f, (f.len() - c) as nat);
    assert(f.take(c as int) =~~= t.take(c as int));
    lemma_resolve_append(t.take(c as int), rest);
    assert(t.take(c as int) + rest =~~= t);
}

proof fn lemma_resolve_concat(base: Seq<Seq<char>>, a: Seq<Seq<char>>, b: Seq<Seq<char>>)
    ensures
        spec_resolve(base, a + b) == spec_resolve(spec_resolve(base, a), b),
    decreases a.len(),
{
    if a.len() == 0 {
        assert(a + b =~~= b);
    } else {
        assert((a + b)[0] == a[0]);
        assert((a + b).skip(1) =~~= a.skip(1) + b);
        if a[0] == ".."@ {
            let base2 = if base.len() > 0 {
                base.drop_last()
            } else {
                base
            };
            lemma_resolve_concat(base2, a.skip(1), b);
        } else {
            lemma_resolve_concat(base.push(a[0]), a.skip(1), b);
        }
    }
}

} // verus!
