//! Destination-path building: numeric suffixes for name collisions and the
//! guarantee that a chosen path never overwrites a taken one.

use vstd::prelude::*;
use vstd::relations::injective_on;
use vstd::seq_lib::seq_to_set_is_finite;
use vstd::set_lib::{lemma_int_range, lemma_len_subset, lemma_map_size, set_int_range};
use vstd::string::*;

use crate::digits::{lemma_dec_injective, lemma_dec_len, push_dec_u64, spec_dec};
use crate::text::{join_path, lemma_last_index, last_index_of, spec_join, spec_last_index};

verus! {

/// The character sequences of a vector of strings.
pub open spec fn views_of(vs: Seq<String>) -> Seq<Seq<char>> {
    vs.map_values(|s: String| s@)
}

/// Pushing a string pushes its character sequence.
pub proof fn lemma_views_push(vs: Seq<String>, x: String)
    ensures
        views_of(vs.push(x)) == views_of(vs).push(x@),
{
    assert(views_of(vs.push(x)) =~~= views_of(vs).push(x@));
}

/// `name` with `_<k>` inserted before its last dot, or appended when it has
/// no dot.
pub open spec fn spec_suffixed(name: Seq<char>, k: nat) -> Seq<char> {
    match spec_last_index(name, '.') {
        Some(d) => name.take(d) + seq!['_'] + spec_dec(k) + name.skip(d),
        None => name + seq!['_'] + spec_dec(k),
    }
}

/// `r` is `dir/name` with the least suffix `k` that avoids every taken path:
/// candidates `1..k` are all taken and the chosen one is free.
pub open spec fn picks_suffixed(
    taken: Seq<Seq<char>>,
    dir: Seq<char>,
    name: Seq<char>,
    k: nat,
    r: Seq<char>,
) -> bool {
    &&& k >= 1
    &&& r == spec_join(dir, spec_suffixed(name, k))
    &&& !taken.contains(r)
    &&& forall|j: nat|
        1 <= j < k ==> taken.contains(spec_join(dir, #[trigger] spec_suffixed(name, j)))
}

/// The collision policy of the path builder: `dir/name` itself when that is
/// free, otherwise the first free suffixed candidate.
pub open spec fn is_unique_path(
    taken: Seq<Seq<char>>,
    dir: Seq<char>,
    name: Seq<char>,
    r: Seq<char>,
) -> bool {
    if !taken.contains(spec_join(dir, name)) {
        r == spec_join(dir, name)
    } else {
        exists|k: nat| picks_suffixed(taken, dir, name, k, r)
    }
}

/// Whether `x` is among the strings of `v`.
pub fn vec_contains_string(v: &Vec<String>, x: &String) -> (r: bool)
    ensures
        r == views_of(v@).contains(x@),
{
    let mut i: usize = 0;
    while i < v.len()
        invariant
            i <= v@.len(),
            forall|j: int| 0 <= j < i ==> v@[j]@ != x@,
        decreases v@.len() - i,
    {
        if v[i] == *x {
            proof {
                assert(views_of(v@)[i as int] == x@);
            }
            return true;
        }
        i = i + 1;
    }
    proof {
        assert(!views_of(v@).contains(x@)) by {
            if views_of(v@).contains(x@) {
                let j = choose|j: int| 0 <= j < views_of(v@).len() && views_of(v@)[j] == x@;
                assert(v@[j]@ == x@);
            }
        }
    }
    false
}

/// The suffixed rendering keeps the name's length plus the separator and the
/// digits.
pub proof fn lemma_suffixed_len(name: Seq<char>, k: nat)
    ensures
        spec_suffixed(name, k).len() == name.len() + 1 + spec_dec(k).len(),
{
    lemma_last_index(name, '.');
}

/// Distinct suffix numbers give distinct suffixed names.
pub proof fn lemma_suffixed_injective(name: Seq<char>, j: nat, k: nat)
    ensures
        j != k ==> spec_suffixed(name, j) != spec_suffixed(name, k),
{
    if j != k && spec_suffixed(name, j) == spec_suffixed(name, k) {
        lemma_suffixed_len(name, j);
        lemma_suffixed_len(name, k);
        let lj = spec_dec(j).len();
        assert(lj == spec_dec(k).len());
        lemma_last_index(name, '.');
        let start: int = match spec_last_index(name, '.') {
            Some(d) => d + 1,
            None => name.len() as int + 1,
        };
        assert(spec_dec(j) =~= spec_suffixed(name, j).subrange(start, start + lj));
        assert(spec_dec(k) =~= spec_suffixed(name, k).subrange(start, start + lj));
        lemma_dec_injective(j, k);
    }
}

/// Joining with a fixed directory is injective in the name.
pub proof fn lemma_join_injective(dir: Seq<char>, a: Seq<char>, b: Seq<char>)
    ensures
        spec_join(dir, a) == spec_join(dir, b) ==> a == b,
{
    if spec_join(dir, a) == spec_join(dir, b) {
        assert(a =~= spec_join(dir, a).subrange(dir.len() as int + 1, spec_join(dir, a).len() as int));
        assert(b =~= spec_join(dir, b).subrange(dir.len() as int + 1, spec_join(dir, b).len() as int));
    }
}

/// If the suffixed candidates `1..=k` are all among `taken`, then `taken`
/// holds at least `k` distinct strings.
proof fn lemma_suffix_pigeonhole(taken: Seq<Seq<char>>, dir: Seq<char>, name: Seq<char>, k: nat)
    requires
        forall|j: nat|
            1 <= j <= k ==> taken.contains(spec_join(dir, #[trigger] spec_suffixed(name, j))),
    ensures
        k <= taken.len(),
{
    broadcast use seq_to_set_is_finite;

    let tset = taken.to_set();
    taken.lemma_cardinality_of_set();
    let f = |j: int| spec_join(dir, spec_suffixed(name, j as nat));
    let dom = set_int_range(1, k as int + 1);
    lemma_int_range(1, k as int + 1);
    assert(injective_on(f, dom)) by {
        assert forall|x1: int, x2: int|
            dom.contains(x1) && dom.contains(x2) && #[trigger] f(x1) == #[trigger] f(
                x2,
            ) implies x1 == x2 by {
            lemma_join_injective(dir, spec_suffixed(name, x1 as nat), spec_suffixed(name, x2 as nat));
            lemma_suffixed_injective(name, x1 as nat, x2 as nat);
        }
    }
    let img = dom.map(f);
    lemma_map_size(dom, img, f);
    assert(img.subset_of(tset)) by {
        assert forall|x: Seq<char>| #[trigger] img.contains(x) implies tset.contains(x) by {
            let j = choose|j: int| dom.contains(j) && f(j) == x;
            assert(taken.contains(spec_join(dir, spec_suffixed(name, j as nat))));
        }
    }
    lemma_len_subset(img, tset);
}

/// `name` with `_<k>` inserted before its final extension, or appended when
/// there is none.
pub fn suffixed_name(name: &str, k: u64) -> (r: String)
    ensures
        r@ == spec_suffixed(name@, k as nat),
{
    proof {
        reveal_strlit("_");
        lemma_last_index(name@, '.');
    }
    let nlen = name.unicode_len();
    match last_index_of(name, '.') {
        Some(d) => {
            let stem = name.substring_char(0, d);
            let ext = name.substring_char(d, nlen);
            let mut out = stem.to_owned();
            out.append("_");
            push_dec_u64(&mut out, k);
            out.append(ext);
            proof {
                assert(name@.take(d as int) =~= name@.subrange(0, d as int));
                assert(name@.skip(d as int) =~= name@.subrange(d as int, name@.len() as int));
                assert(out@ =~= spec_suffixed(name@, k as nat));
            }
            out
        },
        None => {
            let mut out = name.to_owned();
            out.append("_");
            push_dec_u64(&mut out, k);
            proof {
                assert(out@ =~= spec_suffixed(name@, k as nat));
            }
            out
        },
    }
}

/// The file name of a path: what follows the last slash.
pub open spec fn spec_file_name(p: Seq<char>) -> Seq<char> {
    match spec_last_index(p, '/') {
        Some(i) => p.skip(i + 1),
        None => p,
    }
}

/// The file name of a path.
pub fn file_name_of(p: &str) -> (r: String)
    ensures
        r@ == spec_file_name(p@),
{
    let plen = p.unicode_len();
    let r = last_index_of(p, '/');
    proof {
        crate::text::lemma_last_index(p@, '/');
    }
    match r {
        Some(i) => {
            let s = p.substring_char(i + 1, plen);
            proof {
                assert(s@ =~= p@.skip(i + 1));
            }
            s.to_owned()
        },
        None => p.to_owned(),
    }
}

/// Resolve a destination to a path that collides with none of the taken
/// ones: `dir/name` when free, else the first free `dir/name_<k>`.
pub fn resolve_collision(taken: &Vec<String>, dir: &str, name: &str) -> (r: String)
    requires
        taken@.len() < u64::MAX,
    ensures
        is_unique_path(views_of(taken@), dir@, name@, r@),
        !views_of(taken@).contains(r@),
{
    let base = join_path(dir, name);
    if !vec_contains_string(taken, &base) {
        return base;
    }
    let mut k: u64 = 1;
    loop
        invariant
            1 <= k,
            taken@.len() < u64::MAX,
            k as nat <= taken@.len() + 1,
            views_of(taken@).contains(spec_join(dir@, name@)),
            forall|j: nat|
                1 <= j < k as nat ==> views_of(taken@).contains(
                    spec_join(dir@, #[trigger] spec_suffixed(name@, j)),
                ),
        decreases taken@.len() + 1 - k as int,
    {
        let cand_name = suffixed_name(name, k);
        let cand = join_path(dir, cand_name.as_str());
        if !vec_contains_string(taken, &cand) {
            proof {
                assert(picks_suffixed(views_of(taken@), dir@, name@, k as nat, cand@));
            }
            return cand;
        }
        proof {
            assert(forall|j: nat|
                1 <= j <= k as nat ==> views_of(taken@).contains(
                    spec_join(dir@, #[trigger] spec_suffixed(name@, j)),
                ));
            lemma_suffix_pigeonhole(views_of(taken@), dir@, name@, k as nat);
        }
        k = k + 1;
    }
}

/// The collision policy pins the result down: two paths resolved against the
/// same taken set from the same directory and name are equal. This is what
/// makes path building idempotent before any filesystem write.
pub proof fn lemma_unique_path_deterministic(
    taken: Seq<Seq<char>>,
    dir: Seq<char>,
    name: Seq<char>,
    r1: Seq<char>,
    r2: Seq<char>,
)
    requires
        is_unique_path(taken, dir, name, r1),
        is_unique_path(taken, dir, name, r2),
    ensures
        r1 == r2,
{
    if taken.contains(spec_join(dir, name)) {
        let k1 = choose|k: nat| picks_suffixed(taken, dir, name, k, r1);
        let k2 = choose|k: nat| picks_suffixed(taken, dir, name, k, r2);
        if k1 < k2 {
            assert(taken.contains(spec_join(dir, spec_suffixed(name, k1))));
        } else if k2 < k1 {
            assert(taken.contains(spec_join(dir, spec_suffixed(name, k2))));
        }
    }
}

/// Once a file has been created at the fresh base path, resolving the same
/// directory and name again yields the `_1` candidate.
pub proof fn lemma_suffix_after_create(
    taken: Seq<Seq<char>>,
    dir: Seq<char>,
    name: Seq<char>,
    r: Seq<char>,
)
    requires
        !taken.contains(spec_join(dir, name)),
        !taken.push(spec_join(dir, name)).contains(spec_join(dir, spec_suffixed(name, 1))),
        is_unique_path(taken.push(spec_join(dir, name)), dir, name, r),
    ensures
        r == spec_join(dir, spec_suffixed(name, 1)),
{
    let taken2 = taken.push(spec_join(dir, name));
    assert(taken2[taken.len() as int] == spec_join(dir, name));
    assert(taken2.contains(spec_join(dir, name)));
    let k = choose|k: nat| picks_suffixed(taken2, dir, name, k, r);
    if k > 1 {
        assert(taken2.contains(spec_join(dir, spec_suffixed(name, 1))));
    }
}

/// When the base path is already taken and the `_1` candidate is free, the
/// resolved path is exactly the `_1` candidate — and never the base path, so
/// the existing entry is not overwritten.
pub proof fn lemma_collision_takes_first_suffix(
    taken: Seq<Seq<char>>,
    dir: Seq<char>,
    name: Seq<char>,
    r: Seq<char>,
)
    requires
        taken.contains(spec_join(dir, name)),
        !taken.contains(spec_join(dir, spec_suffixed(name, 1))),
        is_unique_path(taken, dir, name, r),
    ensures
        r == spec_join(dir, spec_suffixed(name, 1)),
        r != spec_join(dir, name),
{
    let k = choose|k: nat| picks_suffixed(taken, dir, name, k, r);
    if k > 1 {
        assert(taken.contains(spec_join(dir, spec_suffixed(name, 1))));
    }
    lemma_suffixed_len(name, 1);
    lemma_dec_len(1);
}

} // verus!
