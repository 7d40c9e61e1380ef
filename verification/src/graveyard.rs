//! Searching the graveyard and resurrecting from it. The surrounding
//! binary walks the tree and reads epitaph files; matching, ordering,
//! deduplication and the resurrect decisions are verified here.

use vstd::prelude::*;
use vstd::multiset::Multiset;
use vstd::seq_lib::group_to_multiset_ensures;
use vstd::string::*;

use crate::config::Config;
use crate::epitaph::spec_note_of;
use crate::paths::{file_name_of, lemma_views_push, spec_file_name, views_of};
use crate::text::{
    contains_sub, ends_with_sub, last_index_of, spec_contains, spec_ends_with, spec_last_index,
};

verus! {

/// One entry of the graveyard tree, as the surrounding binary walked it:
/// its path, its file name, whether it is a file, and the content of its
/// epitaph file when one lies beside it.
#[derive(Clone, Debug)]
pub struct GraveEntry {
    pub path: String,
    pub file_name: String,
    pub is_file: bool,
    pub epitaph_content: Option<String>,
}

/// What `str::to_lowercase` returns; a fixed function of the characters
/// given by the Unicode tables.
pub uninterp spec fn lower_of(s: Seq<char>) -> Seq<char>;

/// Relies on `str::to_lowercase`: the lowercase mapping of the string,
/// depending on its characters alone.
#[verifier::external_body]
fn to_lowercase_str(s: &str) -> (r: String)
    ensures
        r@ == lower_of(s@),
{
    s.to_lowercase()
}

/// Whether an entry matches a search pattern: epitaph files themselves
/// never match; anything else matches by file name, or case-insensitively
/// by the content of its epitaph.
pub open spec fn entry_matched(e: GraveEntry, pattern: Seq<char>) -> bool {
    &&& !spec_ends_with(e.file_name@, ".epitaph"@)
    &&& (spec_contains(e.file_name@, pattern) || (e.epitaph_content is Some && spec_contains(
        lower_of(e.epitaph_content->Some_0@),
        lower_of(pattern),
    )))
}

/// The paths of the matching entries, in walk order.
pub open spec fn spec_matched_paths(entries: Seq<GraveEntry>, pattern: Seq<char>) -> Seq<Seq<char>>
    decreases entries.len(),
{
    if entries.len() == 0 {
        Seq::empty()
    } else {
        (if entry_matched(entries[0], pattern) {
            seq![entries[0].path@]
        } else {
            Seq::empty()
        }) + spec_matched_paths(entries.skip(1), pattern)
    }
}

/// Whether an entry matches the pattern, and whether only its epitaph did.
fn entry_match(e: &GraveEntry, pattern: &str) -> (r: (bool, bool))
    ensures
        r.0 == entry_matched(*e, pattern@),
        r.1 == (entry_matched(*e, pattern@) && !spec_contains(e.file_name@, pattern@)),
{
    proof {
        reveal_strlit(".epitaph");
    }
    if ends_with_sub(e.file_name.as_str(), ".epitaph") {
        return (false, false);
    }
    let by_name = contains_sub(e.file_name.as_str(), pattern);
    let by_note = match &e.epitaph_content {
        Some(content) => {
            let lc = to_lowercase_str(content.as_str());
            let lp = to_lowercase_str(pattern);
            contains_sub(lc.as_str(), lp.as_str())
        },
        None => false,
    };
    (by_name || by_note, !by_name && by_note)
}

/// Lexicographic order on character sequences, by code point.
pub open spec fn spec_lex_le(a: Seq<char>, b: Seq<char>) -> bool
    decreases a.len(),
{
    if a.len() == 0 {
        true
    } else if b.len() == 0 {
        false
    } else if (a[0] as u32) < (b[0] as u32) {
        true
    } else if (a[0] as u32) > (b[0] as u32) {
        false
    } else {
        spec_lex_le(a.skip(1), b.skip(1))
    }
}

/// The order search results are listed in: paths under a `created` view
/// first — originals before symlinked views — then lexicographically.
pub open spec fn spec_path_le(a: Seq<char>, b: Seq<char>) -> bool {
    let ac = spec_contains(a, "/created/"@);
    let bc = spec_contains(b, "/created/"@);
    if ac != bc {
        ac
    } else {
        spec_lex_le(a, b)
    }
}

/// Lexicographic order is total.
proof fn lemma_lex_le_total(a: Seq<char>, b: Seq<char>)
    ensures
        spec_lex_le(a, b) || spec_lex_le(b, a),
    decreases a.len(),
{
    if a.len() > 0 && b.len() > 0 && (a[0] as u32) == (b[0] as u32) {
        lemma_lex_le_total(a.skip(1), b.skip(1));
    }
}

/// Lexicographic order is transitive.
proof fn lemma_lex_le_trans(a: Seq<char>, b: Seq<char>, c: Seq<char>)
    requires
        spec_lex_le(a, b),
        spec_lex_le(b, c),
    ensures
        spec_lex_le(a, c),
    decreases a.len(),
{
    if a.len() > 0 && b.len() > 0 && c.len() > 0 && (a[0] as u32) == (b[0] as u32) && (
    b[0] as u32) == (c[0] as u32) {
        lemma_lex_le_trans(a.skip(1), b.skip(1), c.skip(1));
    }
}

/// The search order is total.
proof fn lemma_path_le_total(a: Seq<char>, b: Seq<char>)
    ensures
        spec_path_le(a, b) || spec_path_le(b, a),
{
    lemma_lex_le_total(a, b);
}

/// The search order is transitive.
proof fn lemma_path_le_trans(a: Seq<char>, b: Seq<char>, c: Seq<char>)
    requires
        spec_path_le(a, b),
        spec_path_le(b, c),
    ensures
        spec_path_le(a, c),
{
    let ac = spec_contains(a, "/created/"@);
    let bc = spec_contains(b, "/created/"@);
    let cc = spec_contains(c, "/created/"@);
    if ac == bc && bc == cc {
        lemma_lex_le_trans(a, b, c);
    }
}

/// Compare two strings in lexicographic order.
fn str_lex_le(a: &str, b: &str) -> (r: bool)
    ensures
        r == spec_lex_le(a@, b@),
{
    let alen = a.unicode_len();
    let blen = b.unicode_len();
    let mut i: usize = 0;
    proof {
        assert(a@.skip(0) =~= a@);
        assert(b@.skip(0) =~= b@);
    }
    while i < alen && i < blen
        invariant
            i <= alen,
            i <= blen,
            alen == a@.len(),
            blen == b@.len(),
            spec_lex_le(a@, b@) == spec_lex_le(a@.skip(i as int), b@.skip(i as int)),
        decreases alen - i,
    {
        let ca = a.get_char(i);
        let cb = b.get_char(i);
        if (ca as u32) < (cb as u32) {
            return true;
        }
        if (ca as u32) > (cb as u32) {
            return false;
        }
        proof {
            assert(a@.skip(i as int).skip(1) =~= a@.skip(i + 1));
            assert(b@.skip(i as int).skip(1) =~= b@.skip(i + 1));
            assert(a@.skip(i as int)[0] == a@[i as int]);
            assert(b@.skip(i as int)[0] == b@[i as int]);
        }
        i = i + 1;
    }
    proof {
        if i < blen {
            assert(b@.skip(i as int).len() > 0);
        }
    }
    i >= alen
}

/// Compare two paths in the search order.
fn path_le(a: &str, b: &str) -> (r: bool)
    ensures
        r == spec_path_le(a@, b@),
{
    proof {
        reveal_strlit("/created/");
    }
    let ac = contains_sub(a, "/created/");
    let bc = contains_sub(b, "/created/");
    if ac != bc {
        ac
    } else {
        str_lex_le(a, b)
    }
}

/// Sort paths into the search order: `created` paths first, then
/// lexicographic; the result is a permutation of the input.
fn sort_paths(v: Vec<String>) -> (r: Vec<String>)
    ensures
        r@.len() == v@.len(),
        views_of(r@).to_multiset() == views_of(v@).to_multiset(),
        forall|i: int, j: int|
            0 <= i < j < r@.len() ==> spec_path_le(
                #[trigger] views_of(r@)[i],
                #[trigger] views_of(r@)[j],
            ),
{
    broadcast use group_to_multiset_ensures;

    let mut rem = v;
    let ghost all = views_of(rem@);
    let mut out: Vec<String> = Vec::new();
    proof {
        assert(views_of(out@) =~~= Seq::<Seq<char>>::empty());
        assert(views_of(out@).to_multiset().add(views_of(rem@).to_multiset()) =~= views_of(
            rem@,
        ).to_multiset());
    }
    while rem.len() > 0
        invariant
            views_of(out@).to_multiset().add(views_of(rem@).to_multiset())
                == all.to_multiset(),
            out@.len() + rem@.len() == all.len(),
            forall|i: int, j: int|
                0 <= i < j < out@.len() ==> spec_path_le(
                    #[trigger] views_of(out@)[i],
                    #[trigger] views_of(out@)[j],
                ),
            forall|i: int, j: int|
                0 <= i < out@.len() && 0 <= j < rem@.len() ==> spec_path_le(
                    #[trigger] views_of(out@)[i],
                    #[trigger] views_of(rem@)[j],
                ),
        decreases rem@.len(),
    {
        let mut m: usize = 0;
        let mut k: usize = 1;
        proof {
            lemma_path_le_total(rem@[0]@, rem@[0]@);
            assert(views_of(rem@)[0] == rem@[0]@);
        }
        while k < rem.len()
            invariant
                m < k,
                k <= rem@.len() || k == 1,
                m < rem@.len(),
                rem@.len() > 0,
                forall|j: int|
                    0 <= j < k ==> spec_path_le(
                        views_of(rem@)[m as int],
                        #[trigger] views_of(rem@)[j],
                    ),
            decreases rem@.len() - k,
        {
            if !path_le(rem[m].as_str(), rem[k].as_str()) {
                proof {
                    lemma_path_le_total(rem@[m as int]@, rem@[k as int]@);
                    assert forall|j: int| 0 <= j < k + 1 implies spec_path_le(
                        views_of(rem@)[k as int],
                        #[trigger] views_of(rem@)[j],
                    ) by {
                        if j < k {
                            assert(spec_path_le(views_of(rem@)[m as int], views_of(rem@)[j]));
                            assert(views_of(rem@)[j] == rem@[j]@);
                            lemma_path_le_trans(rem@[k as int]@, rem@[m as int]@, rem@[j]@);
                        } else {
                            lemma_path_le_total(rem@[k as int]@, rem@[k as int]@);
                        }
                    }
                }
                m = k;
            }
            k = k + 1;
        }
        let ghost rem0 = rem@;
        let ghost out0 = out@;
        let x = rem.remove(m);
        out.push(x);
        proof {
            broadcast use group_to_multiset_ensures;

            lemma_views_push(out0, out@.last());
            assert(views_of(rem@) =~~= views_of(rem0).remove(m as int));
            assert(views_of(rem0).remove(m as int).to_multiset() =~= views_of(
                rem0,
            ).to_multiset().remove(views_of(rem0)[m as int]));
            assert(views_of(out@).to_multiset() =~= views_of(out0).to_multiset().insert(
                views_of(rem0)[m as int],
            ));
            assert(views_of(out@).to_multiset().add(views_of(rem@).to_multiset()) =~= all.to_multiset());
            assert forall|i: int, j: int|
                0 <= i < out@.len() && 0 <= j < rem@.len() implies spec_path_le(
                #[trigger] views_of(out@)[i],
                #[trigger] views_of(rem@)[j],
            ) by {
                let orig_j = if j < m as int {
                    j
                } else {
                    j + 1
                };
                assert(views_of(rem@)[j] == views_of(rem0)[orig_j]);
                if i < out0.len() {
                    assert(views_of(out@)[i] == views_of(out0)[i]);
                } else {
                    assert(views_of(out@)[i] == views_of(rem0)[m as int]);
                }
            }
        }
    }
    proof {
        assert(views_of(rem@).to_multiset() =~= Multiset::<Seq<char>>::empty());
        assert(views_of(out@).to_multiset() =~= all.to_multiset());
    }
    out
}

/// The paths with every later repetition of a file name dropped: only the
/// first path carrying each name stays.
pub open spec fn spec_dedup_names(s: Seq<Seq<char>>, seen: Seq<Seq<char>>) -> Seq<Seq<char>>
    decreases s.len(),
{
    if s.len() == 0 {
        Seq::empty()
    } else if seen.contains(spec_file_name(s[0])) {
        spec_dedup_names(s.skip(1), seen)
    } else {
        seq![s[0]] + spec_dedup_names(s.skip(1), seen.push(spec_file_name(s[0])))
    }
}

/// Keep only the first path carrying each file name.
fn dedup_by_file_name(v: &Vec<String>) -> (r: Vec<String>)
    ensures
        views_of(r@) == spec_dedup_names(views_of(v@), Seq::empty()),
{
    let mut out: Vec<String> = Vec::new();
    let mut seen: Vec<String> = Vec::new();
    let mut i: usize = 0;
    proof {
        assert(views_of(v@).skip(0) =~~= views_of(v@));
        assert(views_of(seen@) =~~= Seq::<Seq<char>>::empty());
        assert(views_of(out@) + spec_dedup_names(views_of(v@), views_of(seen@)) =~~= spec_dedup_names(
            views_of(v@),
            Seq::empty(),
        ));
    }
    while i < v.len()
        invariant
            i <= v@.len(),
            spec_dedup_names(views_of(v@), Seq::empty()) == views_of(out@) + spec_dedup_names(
                views_of(v@).skip(i as int),
                views_of(seen@),
            ),
        decreases v@.len() - i,
    {
        let ghost t = views_of(v@).skip(i as int);
        let ghost out0 = out@;
        let ghost seen0 = seen@;
        let name = file_name_of(v[i].as_str());
        proof {
            assert(t[0] == v@[i as int]@);
        }
        if !crate::paths::vec_contains_string(&seen, &name) {
            out.push(v[i].clone());
            seen.push(name);
            proof {
                lemma_views_push(out0, out@.last());
                lemma_views_push(seen0, seen@.last());
                assert(t.skip(1) =~~= views_of(v@).skip(i + 1));
                assert(views_of(out@) + spec_dedup_names(views_of(v@).skip(i + 1), views_of(seen@))
                    =~~= views_of(out0) + spec_dedup_names(t, views_of(seen0)));
            }
        } else {
            proof {
                assert(t.skip(1) =~~= views_of(v@).skip(i + 1));
                assert(views_of(out@) + spec_dedup_names(views_of(v@).skip(i + 1), views_of(seen@))
                    =~~= views_of(out0) + spec_dedup_names(t, views_of(seen0)));
            }
        }
        i = i + 1;
    }
    proof {
        assert(views_of(v@).skip(v@.len() as int) =~~= Seq::<Seq<char>>::empty());
        assert(views_of(out@) =~~= spec_dedup_names(views_of(v@), Seq::empty()));
    }
    out
}

/// What dropping repeated file names guarantees: results come from the
/// input, avoid the already-seen names, never repeat a name, cover every
/// unseen input name, and stay sorted when the input was.
proof fn lemma_dedup_names(s: Seq<Seq<char>>, seen: Seq<Seq<char>>)
    ensures
        forall|i: int|
            0 <= i < spec_dedup_names(s, seen).len() ==> s.contains(
                #[trigger] spec_dedup_names(s, seen)[i],
            ),
        forall|i: int|
            0 <= i < spec_dedup_names(s, seen).len() ==> !seen.contains(
                spec_file_name(#[trigger] spec_dedup_names(s, seen)[i]),
            ),
        forall|i: int, j: int|
            0 <= i < j < spec_dedup_names(s, seen).len() ==> spec_file_name(
                #[trigger] spec_dedup_names(s, seen)[i],
            ) != spec_file_name(#[trigger] spec_dedup_names(s, seen)[j]),
        forall|x: Seq<char>|
            #[trigger] s.contains(x) && !seen.contains(spec_file_name(x)) ==> exists|i: int|
                0 <= i < spec_dedup_names(s, seen).len() && spec_file_name(
                    spec_dedup_names(s, seen)[i],
                ) == spec_file_name(x),
        (forall|i: int, j: int|
            0 <= i < j < s.len() ==> spec_path_le(#[trigger] s[i], #[trigger] s[j])) ==> (
        forall|i: int, j: int|
            0 <= i < j < spec_dedup_names(s, seen).len() ==> spec_path_le(
                #[trigger] spec_dedup_names(s, seen)[i],
                #[trigger] spec_dedup_names(s, seen)[j],
            )),
        (forall|i: int, j: int|
            0 <= i < j < s.len() ==> spec_path_le(#[trigger] s[i], #[trigger] s[j])) ==> (
        forall|i: int, j: int|
            0 <= i < spec_dedup_names(s, seen).len() && 0 <= j < s.len() && spec_file_name(
                #[trigger] s[j],
            ) == spec_file_name(#[trigger] spec_dedup_names(s, seen)[i]) ==> spec_path_le(
                spec_dedup_names(s, seen)[i],
                s[j],
            )),
    decreases s.len(),
{
    if s.len() == 0 {
    } else {
        let w = spec_dedup_names(s, seen);
        let f0 = spec_file_name(s[0]);
        assert(forall|i: int| 0 <= i < s.skip(1).len() ==> #[trigger] s.skip(1)[i] == s[i + 1]);
        assert(forall|x: Seq<char>| s.skip(1).contains(x) ==> #[trigger] s.contains(x)) by {
            assert forall|x: Seq<char>| s.skip(1).contains(x) implies #[trigger] s.contains(x) by {
                let i = choose|i: int| 0 <= i < s.skip(1).len() && s.skip(1)[i] == x;
                assert(s[i + 1] == x);
            }
        }
        if seen.contains(f0) {
            lemma_dedup_names(s.skip(1), seen);
            assert(w == spec_dedup_names(s.skip(1), seen));
            assert forall|x: Seq<char>|
                #[trigger] s.contains(x) && !seen.contains(spec_file_name(x)) implies exists|i: int|
                0 <= i < w.len() && spec_file_name(w[i]) == spec_file_name(x) by {
                let ix = choose|ix: int| 0 <= ix < s.len() && s[ix] == x;
                if ix == 0 {
                    assert(spec_file_name(x) == f0);
                } else {
                    assert(s.skip(1)[ix - 1] == x);
                    assert(s.skip(1).contains(x));
                }
            }
            if forall|i: int, j: int|
                0 <= i < j < s.len() ==> spec_path_le(#[trigger] s[i], #[trigger] s[j]) {
                assert(forall|i: int, j: int|
                    0 <= i < j < s.skip(1).len() ==> spec_path_le(
                        #[trigger] s.skip(1)[i],
                        #[trigger] s.skip(1)[j],
                    ));
                assert forall|i: int, j: int|
                    0 <= i < w.len() && 0 <= j < s.len() && spec_file_name(#[trigger] s[j])
                        == spec_file_name(#[trigger] w[i]) implies spec_path_le(w[i], s[j]) by {
                    if j == 0 {
                        assert(!seen.contains(spec_file_name(w[i])));
                    } else {
                        assert(s.skip(1)[j - 1] == s[j]);
                        assert(spec_path_le(w[i], s.skip(1)[j - 1]));
                    }
                }
            }
        } else {
            let seen2 = seen.push(f0);
            lemma_dedup_names(s.skip(1), seen2);
            let rest = spec_dedup_names(s.skip(1), seen2);
            assert(w == seq![s[0]] + rest);
            assert(w[0] == s[0]);
            assert(forall|i: int| 1 <= i < w.len() ==> #[trigger] w[i] == rest[i - 1]);
            assert(forall|x: Seq<char>| !seen2.contains(x) ==> !seen.contains(x) && x != f0) by {
                assert(forall|x: Seq<char>|
                    seen.contains(x) ==> #[trigger] seen2.contains(x)) by {
                    assert forall|x: Seq<char>| seen.contains(x) implies #[trigger] seen2.contains(
                        x,
                    ) by {
                        let i = choose|i: int| 0 <= i < seen.len() && seen[i] == x;
                        assert(seen2[i] == x);
                    }
                }
                assert(seen2[seen.len() as int] == f0);
            }
            assert forall|x: Seq<char>|
                #[trigger] s.contains(x) && !seen.contains(spec_file_name(x)) implies exists|i: int|
                0 <= i < w.len() && spec_file_name(w[i]) == spec_file_name(x) by {
                if spec_file_name(x) == f0 {
                    assert(spec_file_name(w[0]) == spec_file_name(x));
                } else {
                    let ix = choose|ix: int| 0 <= ix < s.len() && s[ix] == x;
                    assert(ix != 0);
                    assert(s.skip(1)[ix - 1] == x);
                    assert(s.skip(1).contains(x));
                    assert(!seen2.contains(spec_file_name(x))) by {
                        if seen2.contains(spec_file_name(x)) {
                            let iy = choose|iy: int|
                                0 <= iy < seen2.len() && seen2[iy] == spec_file_name(x);
                            if iy < seen.len() {
                                assert(seen[iy] == spec_file_name(x));
                            }
                        }
                    }
                    let i = choose|i: int|
                        0 <= i < rest.len() && spec_file_name(rest[i]) == spec_file_name(x);
                    assert(spec_file_name(w[i + 1]) == spec_file_name(x));
                }
            }
            if forall|i: int, j: int|
                0 <= i < j < s.len() ==> spec_path_le(#[trigger] s[i], #[trigger] s[j]) {
                assert(forall|i: int, j: int|
                    0 <= i < j < s.skip(1).len() ==> spec_path_le(
                        #[trigger] s.skip(1)[i],
                        #[trigger] s.skip(1)[j],
                    ));
                assert forall|i: int, j: int|
                    0 <= i < j < w.len() implies spec_path_le(
                    #[trigger] w[i],
                    #[trigger] w[j],
                ) by {
                    if i == 0 {
                        assert(w[j] == rest[j - 1]);
                        assert(s.skip(1).contains(rest[j - 1]));
                        let ix = choose|ix: int|
                            0 <= ix < s.skip(1).len() && s.skip(1)[ix] == rest[j - 1];
                        assert(s[ix + 1] == rest[j - 1]);
                        assert(spec_path_le(s[0], s[ix + 1]));
                    } else {
                        assert(w[i] == rest[i - 1] && w[j] == rest[j - 1]);
                    }
                }
                assert forall|i: int, j: int|
                    0 <= i < w.len() && 0 <= j < s.len() && spec_file_name(#[trigger] s[j])
                        == spec_file_name(#[trigger] w[i]) implies spec_path_le(w[i], s[j]) by {
                    if i == 0 {
                        if j == 0 {
                            lemma_path_le_total(s[0], s[0]);
                        } else {
                            assert(spec_path_le(s[0], s[j]));
                        }
                    } else {
                        assert(w[i] == rest[i - 1]);
                        assert(!seen2.contains(spec_file_name(rest[i - 1])));
                        assert(seen2[seen.len() as int] == f0);
                        assert(spec_file_name(rest[i - 1]) != f0);
                        if j == 0 {
                        } else {
                            assert(s.skip(1)[j - 1] == s[j]);
                            assert(spec_path_le(rest[i - 1], s.skip(1)[j - 1]));
                        }
                    }
                }
            }
        }
    }
}

/// `x` is the path of some matching entry.
pub open spec fn is_matched_path(entries: Seq<GraveEntry>, pattern: Seq<char>, x: Seq<char>) -> bool {
    exists|w: int|
        0 <= w < entries.len() && x == (#[trigger] entries[w]).path@ && entry_matched(
            entries[w],
            pattern,
        )
}

/// Some listed path carries the same file name as `x`.
pub open spec fn has_name_among(paths: Seq<Seq<char>>, x: Seq<char>) -> bool {
    exists|i: int| 0 <= i < paths.len() && spec_file_name(#[trigger] paths[i]) == spec_file_name(x)
}

/// Matched paths come exactly from matching entries.
proof fn lemma_matched_paths(entries: Seq<GraveEntry>, pattern: Seq<char>)
    ensures
        forall|i: int|
            0 <= i < spec_matched_paths(entries, pattern).len() ==> is_matched_path(
                entries,
                pattern,
                #[trigger] spec_matched_paths(entries, pattern)[i],
            ),
        forall|w: int|
            0 <= w < entries.len() && entry_matched(#[trigger] entries[w], pattern)
                ==> spec_matched_paths(entries, pattern).contains(entries[w].path@),
    decreases entries.len(),
{
    if entries.len() > 0 {
        lemma_matched_paths(entries.skip(1), pattern);
        let rest = spec_matched_paths(entries.skip(1), pattern);
        assert(forall|i: int|
            0 <= i < entries.skip(1).len() ==> #[trigger] entries.skip(1)[i] == entries[i + 1]);
        let head: int = if entry_matched(entries[0], pattern) {
            1
        } else {
            0
        };
        assert forall|i: int|
            0 <= i < spec_matched_paths(entries, pattern).len() implies is_matched_path(
            entries,
            pattern,
            #[trigger] spec_matched_paths(entries, pattern)[i],
        ) by {
            if i >= head {
                assert(spec_matched_paths(entries, pattern)[i] == rest[i - head]);
                assert(is_matched_path(entries.skip(1), pattern, rest[i - head]));
                let v = choose|v: int|
                    0 <= v < entries.skip(1).len() && rest[i - head] == (
                    #[trigger] entries.skip(1)[v]).path@ && entry_matched(
                        entries.skip(1)[v],
                        pattern,
                    );
                assert(spec_matched_paths(entries, pattern)[i] == entries[v + 1].path@
                    && entry_matched(entries[v + 1], pattern));
            } else {
                assert(spec_matched_paths(entries, pattern)[0] == entries[0].path@);
            }
        }
        assert forall|w: int|
            0 <= w < entries.len() && entry_matched(
                #[trigger] entries[w],
                pattern,
            ) implies spec_matched_paths(entries, pattern).contains(entries[w].path@) by {
            if w == 0 {
                assert(spec_matched_paths(entries, pattern)[0] == entries[0].path@);
            } else {
                assert(entries.skip(1)[w - 1] == entries[w]);
                assert(rest.contains(entries[w].path@));
                let i = choose|i: int| 0 <= i < rest.len() && rest[i] == entries[w].path@;
                assert(spec_matched_paths(entries, pattern)[i + head] == entries[w].path@);
            }
        }
    }
}

/// The matching entries' paths, ordered for listing — paths under a
/// `created` view first — with only the first path kept for each file
/// name, so originals shadow their symlinked views.
pub fn find_in_graveyard(entries: &Vec<GraveEntry>, pattern: &str) -> (r: Vec<String>)
    ensures
        forall|i: int|
            0 <= i < r@.len() ==> is_matched_path(entries@, pattern@, #[trigger] views_of(r@)[i]),
        forall|i: int, j: int|
            0 <= i < j < r@.len() ==> spec_file_name(#[trigger] views_of(r@)[i])
                != spec_file_name(#[trigger] views_of(r@)[j]),
        forall|i: int, j: int|
            0 <= i < j < r@.len() ==> spec_path_le(
                #[trigger] views_of(r@)[i],
                #[trigger] views_of(r@)[j],
            ),
        forall|w: int|
            0 <= w < entries@.len() && entry_matched(#[trigger] entries@[w], pattern@)
                ==> has_name_among(views_of(r@), entries@[w].path@),
        forall|i: int, w: int|
            0 <= i < r@.len() && 0 <= w < entries@.len() && entry_matched(
                #[trigger] entries@[w],
                pattern@,
            ) && spec_file_name(entries@[w].path@) == spec_file_name(#[trigger] views_of(r@)[i])
                ==> spec_path_le(views_of(r@)[i], entries@[w].path@),
{
    broadcast use group_to_multiset_ensures;

    let mut matched: Vec<String> = Vec::new();
    let mut i: usize = 0;
    proof {
        assert(entries@.skip(0) =~= entries@);
        assert(views_of(matched@) + spec_matched_paths(entries@, pattern@) =~~= spec_matched_paths(
            entries@,
            pattern@,
        ));
    }
    while i < entries.len()
        invariant
            i <= entries@.len(),
            spec_matched_paths(entries@, pattern@) == views_of(matched@) + spec_matched_paths(
                entries@.skip(i as int),
                pattern@,
            ),
        decreases entries@.len() - i,
    {
        let ghost t = entries@.skip(i as int);
        let ghost m0 = matched@;
        let (hit, _by_note) = entry_match(&entries[i], pattern);
        if hit {
            matched.push(entries[i].path.clone());
            proof {
                lemma_views_push(m0, matched@.last());
            }
        }
        proof {
            assert(t[0] == entries@[i as int]);
            assert(t.skip(1) =~= entries@.skip(i + 1));
            assert(views_of(matched@) + spec_matched_paths(entries@.skip(i + 1), pattern@) =~~= views_of(
                m0,
            ) + spec_matched_paths(t, pattern@));
        }
        i = i + 1;
    }
    proof {
        assert(spec_matched_paths(entries@.skip(entries@.len() as int), pattern@) =~~= Seq::<
            Seq<char>,
        >::empty());
        assert(views_of(matched@) =~~= spec_matched_paths(entries@, pattern@));
    }
    let ghost mviews = views_of(matched@);
    let sorted = sort_paths(matched);
    let r = dedup_by_file_name(&sorted);
    proof {
        lemma_matched_paths(entries@, pattern@);
        lemma_dedup_names(views_of(sorted@), Seq::empty());
        assert forall|x: Seq<char>|
            #[trigger] views_of(sorted@).contains(x) <==> mviews.contains(x) by {
            assert(views_of(sorted@).to_multiset().count(x) == mviews.to_multiset().count(x));
        }
        assert forall|i: int| 0 <= i < r@.len() implies is_matched_path(
            entries@,
            pattern@,
            #[trigger] views_of(r@)[i],
        ) by {
            assert(views_of(sorted@).contains(views_of(r@)[i]));
            assert(mviews.contains(views_of(r@)[i]));
            let m = choose|m: int| 0 <= m < mviews.len() && mviews[m] == views_of(r@)[i];
            assert(spec_matched_paths(entries@, pattern@)[m] == views_of(r@)[i]);
            assert(is_matched_path(entries@, pattern@, spec_matched_paths(entries@, pattern@)[m]));
        }
        assert forall|w: int|
            0 <= w < entries@.len() && entry_matched(
                #[trigger] entries@[w],
                pattern@,
            ) implies has_name_among(views_of(r@), entries@[w].path@) by {
            assert(mviews.contains(entries@[w].path@));
            assert(views_of(sorted@).contains(entries@[w].path@));
            let i = choose|i: int|
                0 <= i < views_of(r@).len() && spec_file_name(views_of(r@)[i]) == spec_file_name(
                    entries@[w].path@,
                );
        }
        assert forall|i: int, w: int|
            0 <= i < r@.len() && 0 <= w < entries@.len() && entry_matched(
                #[trigger] entries@[w],
                pattern@,
            ) && spec_file_name(entries@[w].path@) == spec_file_name(
            #[trigger] views_of(r@)[i],
        ) implies spec_path_le(views_of(r@)[i], entries@[w].path@) by {
            assert(mviews.contains(entries@[w].path@));
            assert(views_of(sorted@).contains(entries@[w].path@));
            let j = choose|j: int|
                0 <= j < views_of(sorted@).len() && views_of(sorted@)[j] == entries@[w].path@;
            assert(spec_path_le(views_of(r@)[i], views_of(sorted@)[j]));
        }
    }
    r
}

/// One search listing line: the archived path, the note read back from its
/// epitaph, and whether only the epitaph matched the pattern.
#[derive(Clone, Debug)]
pub struct SearchResult {
    pub path: String,
    pub note: Option<String>,
    pub matched_by_epitaph: bool,
}

/// The first graveyard entry recorded under this path.
pub open spec fn spec_find_entry(entries: Seq<GraveEntry>, p: Seq<char>) -> Option<GraveEntry>
    decreases entries.len(),
{
    if entries.len() == 0 {
        None
    } else if entries[0].path@ == p {
        Some(entries[0])
    } else {
        spec_find_entry(entries.skip(1), p)
    }
}

proof fn lemma_find_entry_skip(entries: Seq<GraveEntry>, p: Seq<char>, i: int)
    requires
        0 <= i <= entries.len(),
        forall|j: int| 0 <= j < i ==> (#[trigger] entries[j]).path@ != p,
    ensures
        spec_find_entry(entries, p) == spec_find_entry(entries.skip(i), p),
    decreases i,
{
    if i == 0 {
        assert(entries.skip(0) =~= entries);
    } else {
        assert(entries[0].path@ != p);
        assert(spec_find_entry(entries, p) == spec_find_entry(entries.skip(1), p));
        assert(forall|j: int|
            0 <= j < i - 1 ==> (#[trigger] entries.skip(1)[j]).path@ == entries[j + 1].path@);
        lemma_find_entry_skip(entries.skip(1), p, i - 1);
        assert(entries.skip(1).skip(i - 1) =~= entries.skip(i));
    }
}

/// Find the first entry recorded under `p`.
fn find_entry<'a>(entries: &'a Vec<GraveEntry>, p: &str) -> (r: Option<&'a GraveEntry>)
    ensures
        match r {
            Some(e) => spec_find_entry(entries@, p@) == Some(*e),
            None => spec_find_entry(entries@, p@) is None,
        },
{
    let mut i: usize = 0;
    while i < entries.len()
        invariant
            i <= entries@.len(),
            forall|j: int| 0 <= j < i ==> (#[trigger] entries@[j]).path@ != p@,
        decreases entries@.len() - i,
    {
        if crate::text::eq_str(entries[i].path.as_str(), p) {
            proof {
                lemma_find_entry_skip(entries@, p@, i as int);
                assert(entries@.skip(i as int)[0] == entries@[i as int]);
            }
            return Some(&entries[i]);
        }
        i = i + 1;
    }
    proof {
        lemma_find_entry_skip(entries@, p@, entries@.len() as int);
        assert(entries@.skip(entries@.len() as int) =~= Seq::<GraveEntry>::empty());
    }
    None
}

/// What one search listing line must hold, relative to the entry recorded
/// under its path: the note is exactly what the epitaph file carries after
/// its header, and the flag says the file name itself did not match.
pub open spec fn search_result_ok(
    entries: Seq<GraveEntry>,
    pattern: Seq<char>,
    r: SearchResult,
) -> bool {
    match spec_find_entry(entries, r.path@) {
        Some(e) => {
            &&& (match e.epitaph_content {
                Some(c) => match r.note {
                    Some(n) => spec_note_of(c@) == Some(n@),
                    None => spec_note_of(c@) is None,
                },
                None => r.note is None,
            })
            &&& r.matched_by_epitaph == (entry_matched(e, pattern) && !spec_contains(
                e.file_name@,
                pattern,
            ))
        },
        None => r.note is None && !r.matched_by_epitaph,
    }
}

/// The paths of a sequence of search results.
pub open spec fn result_paths(s: Seq<SearchResult>) -> Seq<Seq<char>> {
    s.map_values(|r: SearchResult| r.path@)
}

/// Search the graveyard: the deduplicated, ordered matches of
/// `find_in_graveyard`, each with the note read back from its epitaph and
/// a flag for matches the file name alone would have missed.
pub fn search_files(entries: &Vec<GraveEntry>, pattern: &str) -> (r: Vec<SearchResult>)
    ensures
        forall|i: int|
            0 <= i < r@.len() ==> is_matched_path(
                entries@,
                pattern@,
                #[trigger] result_paths(r@)[i],
            ),
        forall|i: int, j: int|
            0 <= i < j < r@.len() ==> spec_file_name(#[trigger] result_paths(r@)[i])
                != spec_file_name(#[trigger] result_paths(r@)[j]),
        forall|i: int, j: int|
            0 <= i < j < r@.len() ==> spec_path_le(
                #[trigger] result_paths(r@)[i],
                #[trigger] result_paths(r@)[j],
            ),
        forall|w: int|
            0 <= w < entries@.len() && entry_matched(#[trigger] entries@[w], pattern@)
                ==> has_name_among(result_paths(r@), entries@[w].path@),
        forall|i: int, w: int|
            0 <= i < r@.len() && 0 <= w < entries@.len() && entry_matched(
                #[trigger] entries@[w],
                pattern@,
            ) && spec_file_name(entries@[w].path@) == spec_file_name(
                #[trigger] result_paths(r@)[i],
            ) ==> spec_path_le(result_paths(r@)[i], entries@[w].path@),
        forall|i: int| 0 <= i < r@.len() ==> search_result_ok(entries@, pattern@, #[trigger] r@[i]),
{
    let paths = find_in_graveyard(entries, pattern);
    let mut out: Vec<SearchResult> = Vec::new();
    let mut i: usize = 0;
    while i < paths.len()
        invariant
            i <= paths@.len(),
            out@.len() == i,
            forall|j: int|
                0 <= j < i ==> #[trigger] out@[j].path@ == views_of(paths@)[j],
            forall|j: int|
                0 <= j < i ==> search_result_ok(entries@, pattern@, #[trigger] out@[j]),
            forall|j: int|
                0 <= j < paths@.len() ==> is_matched_path(
                    entries@,
                    pattern@,
                    #[trigger] views_of(paths@)[j],
                ),
            forall|j: int, k: int|
                0 <= j < k < paths@.len() ==> spec_file_name(#[trigger] views_of(paths@)[j])
                    != spec_file_name(#[trigger] views_of(paths@)[k]),
            forall|j: int, k: int|
                0 <= j < k < paths@.len() ==> spec_path_le(
                    #[trigger] views_of(paths@)[j],
                    #[trigger] views_of(paths@)[k],
                ),
            forall|w: int|
                0 <= w < entries@.len() && entry_matched(#[trigger] entries@[w], pattern@)
                    ==> has_name_among(views_of(paths@), entries@[w].path@),
            forall|j: int, w: int|
                0 <= j < paths@.len() && 0 <= w < entries@.len() && entry_matched(
                    #[trigger] entries@[w],
                    pattern@,
                ) && spec_file_name(entries@[w].path@) == spec_file_name(
                    #[trigger] views_of(paths@)[j],
                ) ==> spec_path_le(views_of(paths@)[j], entries@[w].path@),
        decreases paths@.len() - i,
    {
        let p = &paths[i];
        let res = match find_entry(entries, p.as_str()) {
            Some(e) => {
                let note = match &e.epitaph_content {
                    Some(c) => crate::epitaph::epitaph_note(c.as_str()),
                    None => None,
                };
                let (_hit, by_note) = entry_match(e, pattern);
                SearchResult { path: p.clone(), note, matched_by_epitaph: by_note }
            },
            None => SearchResult { path: p.clone(), note: None, matched_by_epitaph: false },
        };
        out.push(res);
        i = i + 1;
    }
    proof {
        assert forall|i2: int| 0 <= i2 < out@.len() implies is_matched_path(
            entries@,
            pattern@,
            #[trigger] result_paths(out@)[i2],
        ) by {
            assert(result_paths(out@)[i2] == out@[i2].path@);
            assert(out@[i2].path@ == views_of(paths@)[i2]);
        }
        assert(forall|i2: int|
            0 <= i2 < out@.len() ==> #[trigger] result_paths(out@)[i2] == views_of(paths@)[i2]);
        assert forall|w: int|
            0 <= w < entries@.len() && entry_matched(
                #[trigger] entries@[w],
                pattern@,
            ) implies has_name_among(result_paths(out@), entries@[w].path@) by {
            let j = choose|j: int|
                0 <= j < views_of(paths@).len() && spec_file_name(
                    #[trigger] views_of(paths@)[j],
                ) == spec_file_name(entries@[w].path@);
            assert(result_paths(out@)[j] == views_of(paths@)[j]);
        }
        assert forall|i2: int, w: int|
            0 <= i2 < out@.len() && 0 <= w < entries@.len() && entry_matched(
                #[trigger] entries@[w],
                pattern@,
            ) && spec_file_name(entries@[w].path@) == spec_file_name(
            #[trigger] result_paths(out@)[i2],
        ) implies spec_path_le(result_paths(out@)[i2], entries@[w].path@) by {
            assert(result_paths(out@)[i2] == views_of(paths@)[i2]);
        }
    }
    out
}

/// What a resurrect request decides, before any file is copied.
#[derive(Clone, Debug)]
pub enum ResurrectOutcome {
    /// Nothing in the graveyard matched the pattern.
    NoMatches,
    /// Copy `source` back into the inbox at `dest`.
    Resurrect { source: String, dest: String },
    /// The operator quit the selection.
    Cancelled,
    /// A number was given, but it names no listed match.
    InvalidChoice,
    /// The selection was neither a number nor a quit.
    InvalidInput,
}

/// Reads and writes the graveyard tree through plans and decisions.
pub struct GraveyardManager {
    pub config: Config,
}

impl GraveyardManager {
    /// A manager over the given configuration.
    pub fn new(config: Config) -> (r: Self)
        ensures
            r.config == config,
    {
        GraveyardManager { config }
    }

    /// The matching paths, ordered and deduplicated, over the walked
    /// entries.
    pub fn find_in_graveyard(&self, entries: &Vec<GraveEntry>, pattern: &str) -> (r: Vec<String>)
        ensures
            forall|i: int|
                0 <= i < r@.len() ==> is_matched_path(
                    entries@,
                    pattern@,
                    #[trigger] views_of(r@)[i],
                ),
            forall|i: int, j: int|
                0 <= i < j < r@.len() ==> spec_file_name(#[trigger] views_of(r@)[i])
                    != spec_file_name(#[trigger] views_of(r@)[j]),
            forall|i: int, j: int|
                0 <= i < j < r@.len() ==> spec_path_le(
                    #[trigger] views_of(r@)[i],
                    #[trigger] views_of(r@)[j],
                ),
            forall|w: int|
                0 <= w < entries@.len() && entry_matched(#[trigger] entries@[w], pattern@)
                    ==> has_name_among(views_of(r@), entries@[w].path@),
            forall|i: int, w: int|
                0 <= i < r@.len() && 0 <= w < entries@.len() && entry_matched(
                    #[trigger] entries@[w],
                    pattern@,
                ) && spec_file_name(entries@[w].path@) == spec_file_name(
                    #[trigger] views_of(r@)[i],
                ) ==> spec_path_le(views_of(r@)[i], entries@[w].path@),
    {
        find_in_graveyard(entries, pattern)
    }

    /// Search the graveyard over the walked entries: ordered matches with
    /// their notes.
    pub fn search_files(&self, entries: &Vec<GraveEntry>, pattern: &str) -> (r: Vec<SearchResult>)
        ensures
            forall|i: int|
                0 <= i < r@.len() ==> search_result_ok(entries@, pattern@, #[trigger] r@[i]),
            forall|i: int|
                0 <= i < r@.len() ==> is_matched_path(
                    entries@,
                    pattern@,
                    #[trigger] result_paths(r@)[i],
                ),
            forall|i: int, j: int|
                0 <= i < j < r@.len() ==> spec_file_name(#[trigger] result_paths(r@)[i])
                    != spec_file_name(#[trigger] result_paths(r@)[j]),
            forall|i: int, j: int|
                0 <= i < j < r@.len() ==> spec_path_le(
                    #[trigger] result_paths(r@)[i],
                    #[trigger] result_paths(r@)[j],
                ),
            forall|w: int|
                0 <= w < entries@.len() && entry_matched(#[trigger] entries@[w], pattern@)
                    ==> has_name_among(result_paths(r@), entries@[w].path@),
            forall|i: int, w: int|
                0 <= i < r@.len() && 0 <= w < entries@.len() && entry_matched(
                    #[trigger] entries@[w],
                    pattern@,
                ) && spec_file_name(entries@[w].path@) == spec_file_name(
                    #[trigger] result_paths(r@)[i],
                ) ==> spec_path_le(result_paths(r@)[i], entries@[w].path@),
    {
        search_files(entries, pattern)
    }

    /// Decide what a resurrect request does: a single match is copied
    /// without asking; several matches are picked by number, counted from
    /// one, with `q` quitting. The destination keeps the source's file
    /// name under the inbox.
    pub fn resurrect_files(&self, matches: &Vec<String>, input: &str) -> (r: ResurrectOutcome)
        ensures
            matches@.len() == 0 ==> r is NoMatches,
            matches@.len() == 1 ==> (r matches ResurrectOutcome::Resurrect { source, dest }
                && source@ == matches@[0]@ && dest@ == crate::text::spec_join(
                self.config.inbox@,
                spec_file_name(matches@[0]@),
            )),
            matches@.len() > 1 ==> {
                if input@ == "q"@ {
                    r is Cancelled
                } else {
                    match crate::digits::spec_parse_usize(input@) {
                        Some(c) => {
                            if 1 <= c <= matches@.len() {
                                r matches ResurrectOutcome::Resurrect { source, dest } && source@
                                    == matches@[c - 1]@ && dest@ == crate::text::spec_join(
                                    self.config.inbox@,
                                    spec_file_name(matches@[c - 1]@),
                                )
                            } else {
                                r is InvalidChoice
                            }
                        },
                        None => r is InvalidInput,
                    }
                }
            },
    {
        proof {
            reveal_strlit("q");
        }
        if matches.len() == 0 {
            return ResurrectOutcome::NoMatches;
        }
        if matches.len() == 1 {
            let source = matches[0].clone();
            let name = file_name_of(source.as_str());
            let dest = crate::text::join_path(self.config.inbox.as_str(), name.as_str());
            return ResurrectOutcome::Resurrect { source, dest };
        }
        if crate::text::eq_str(input, "q") {
            return ResurrectOutcome::Cancelled;
        }
        match crate::digits::parse_usize(input) {
            Some(choice) => {
                if choice >= 1 && choice <= matches.len() {
                    let source = matches[choice - 1].clone();
                    let name = file_name_of(source.as_str());
                    let dest = crate::text::join_path(self.config.inbox.as_str(), name.as_str());
                    ResurrectOutcome::Resurrect { source, dest }
                } else {
                    ResurrectOutcome::InvalidChoice
                }
            },
            None => ResurrectOutcome::InvalidInput,
        }
    }
}

} // verus!
