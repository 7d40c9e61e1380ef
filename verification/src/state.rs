//! How often each stale item has been announced. The counts feed
//! auto-archive eligibility; loading and saving them is the surrounding
//! binary's concern.

use vstd::prelude::*;
use vstd::string::*;

verus! {

/// Per-item notification counts, keyed by the item's name. Keys are unique;
/// `wf` states that invariant.
#[derive(Debug)]
pub struct NotificationState {
    pub notification_counts: Vec<(String, u32)>,
}

/// The count recorded for `name`: the first matching entry, or zero.
pub open spec fn spec_count(s: Seq<(String, u32)>, name: Seq<char>) -> u32
    decreases s.len(),
{
    if s.len() == 0 {
        0u32
    } else if s[0].0@ == name {
        s[0].1
    } else {
        spec_count(s.skip(1), name)
    }
}

/// Some entry carries the key `name`.
pub open spec fn spec_has_key(s: Seq<(String, u32)>, name: Seq<char>) -> bool {
    exists|i: int| 0 <= i < s.len() && s[i].0@ == name
}

/// Keys are pairwise distinct.
pub open spec fn wf_counts(s: Seq<(String, u32)>) -> bool {
    forall|i: int, j: int| 0 <= i < j < s.len() ==> s[i].0@ != s[j].0@
}

/// `s` without every entry keyed `name`.
pub open spec fn spec_without(s: Seq<(String, u32)>, name: Seq<char>) -> Seq<(String, u32)>
    decreases s.len(),
{
    if s.len() == 0 {
        Seq::empty()
    } else {
        (if s[0].0@ == name {
            Seq::empty()
        } else {
            seq![s[0]]
        }) + spec_without(s.skip(1), name)
    }
}

/// Skipping entries with other keys does not change the recorded count.
proof fn lemma_count_skip(s: Seq<(String, u32)>, name: Seq<char>, i: int)
    requires
        0 <= i <= s.len(),
        forall|j: int| 0 <= j < i ==> s[j].0@ != name,
    ensures
        spec_count(s, name) == spec_count(s.skip(i), name),
    decreases i,
{
    if i == 0 {
        assert(s.skip(0) =~= s);
    } else {
        assert(spec_count(s, name) == spec_count(s.skip(1), name));
        lemma_count_skip(s.skip(1), name, i - 1);
        assert(s.skip(1).skip(i - 1) =~= s.skip(i));
    }
}

/// What removing a key does: that key's count becomes zero, every other
/// key's count and presence are untouched, and uniqueness is kept.
proof fn lemma_without(s: Seq<(String, u32)>, name: Seq<char>)
    ensures
        forall|i: int|
            0 <= i < spec_without(s, name).len() ==> #[trigger] spec_without(s, name)[i].0@
                != name,
        forall|k: Seq<char>|
            #[trigger] spec_has_key(spec_without(s, name), k) ==> spec_has_key(s, k),
        wf_counts(s) ==> wf_counts(spec_without(s, name)),
        forall|m: Seq<char>|
            m != name ==> #[trigger] spec_count(spec_without(s, name), m) == spec_count(s, m),
        spec_count(spec_without(s, name), name) == 0,
    decreases s.len(),
{
    if s.len() > 0 {
        lemma_without(s.skip(1), name);
        let head = if s[0].0@ == name {
            Seq::<(String, u32)>::empty()
        } else {
            seq![s[0]]
        };
        let rest = spec_without(s.skip(1), name);
        let w = spec_without(s, name);
        assert(w == head + rest);
        assert forall|i: int| 0 <= i < w.len() implies #[trigger] w[i].0@ != name by {
            if i >= head.len() {
                assert(w[i] == rest[i - head.len()]);
            }
        }
        assert forall|k: Seq<char>| #[trigger] spec_has_key(w, k) implies spec_has_key(s, k) by {
            let i = choose|i: int| 0 <= i < w.len() && w[i].0@ == k;
            if i < head.len() {
                assert(s[0].0@ == k);
            } else {
                assert(rest[i - head.len()].0@ == k);
                assert(spec_has_key(rest, k));
                assert(spec_has_key(s.skip(1), k));
                let j = choose|j: int| 0 <= j < s.skip(1).len() && s.skip(1)[j].0@ == k;
                assert(s[j + 1].0@ == k);
            }
        }
        if wf_counts(s) {
            assert(wf_counts(s.skip(1))) by {
                assert(forall|i: int, j: int|
                    0 <= i < j < s.skip(1).len() ==> s.skip(1)[i] == s[i + 1] && s.skip(1)[j] == s[
                        j + 1
                    ]);
            }
            assert(wf_counts(w)) by {
                if head.len() == 1 {
                    assert forall|i: int, j: int| 0 <= i < j < w.len() implies w[i].0@
                        != w[j].0@ by {
                        if i == 0 {
                            assert(w[j] == rest[j - 1]);
                            assert(spec_has_key(rest, w[j].0@));
                            let m = choose|m: int|
                                0 <= m < s.skip(1).len() && s.skip(1)[m].0@ == w[j].0@;
                            assert(s[m + 1].0@ == w[j].0@);
                        } else {
                            assert(w[i] == rest[i - 1] && w[j] == rest[j - 1]);
                        }
                    }
                }
            }
        }
        assert forall|m: Seq<char>| m != name implies #[trigger] spec_count(w, m) == spec_count(
            s,
            m,
        ) by {
            assert(spec_count(rest, m) == spec_count(s.skip(1), m));
            if s[0].0@ == name {
                assert(w =~= rest);
                assert(spec_count(s, m) == spec_count(s.skip(1), m));
            } else if s[0].0@ == m {
                assert(w[0] == s[0]);
                assert(spec_count(w, m) == w[0].1);
                assert(spec_count(s, m) == s[0].1);
            } else {
                assert(w[0] == s[0]);
                assert(w.skip(1) =~= rest);
                assert(spec_count(w, m) == spec_count(rest, m));
                assert(spec_count(s, m) == spec_count(s.skip(1), m));
            }
        }
        if s[0].0@ == name {
            assert(w =~= rest);
        } else {
            assert(w.skip(1) =~= rest);
        }
    }
}

impl NotificationState {
    /// The recorded count for `file_name`, zero when none is recorded.
    pub fn get_notification_count(&self, file_name: &str) -> (r: u32)
        ensures
            r == spec_count(self.notification_counts@, file_name@),
    {
        let s = &self.notification_counts;
        let mut i: usize = 0;
        while i < s.len()
            invariant
                i <= s@.len(),
                s@ == self.notification_counts@,
                forall|j: int| 0 <= j < i ==> s@[j].0@ != file_name@,
            decreases s@.len() - i,
        {
            if crate::text::eq_str(s[i].0.as_str(), file_name) {
                proof {
                    lemma_count_skip(s@, file_name@, i as int);
                    assert(s@.skip(i as int)[0] == s@[i as int]);
                }
                return s[i].1;
            }
            i = i + 1;
        }
        proof {
            lemma_count_skip(s@, file_name@, s@.len() as int);
            assert(s@.skip(s@.len() as int) =~= Seq::<(String, u32)>::empty());
        }
        0
    }

    /// Record one more notification for `file_name`; other names keep their
    /// counts.
    pub fn increment_notification_count(&mut self, file_name: &str)
        requires
            spec_count(old(self).notification_counts@, file_name@) < u32::MAX,
            wf_counts(old(self).notification_counts@),
        ensures
            spec_count(final(self).notification_counts@, file_name@) == spec_count(
                old(self).notification_counts@,
                file_name@,
            ) + 1,
            forall|m: Seq<char>|
                m != file_name@ ==> #[trigger] spec_count(final(self).notification_counts@, m)
                    == spec_count(old(self).notification_counts@, m),
            wf_counts(final(self).notification_counts@),
    {
        let c = self.get_notification_count(file_name);
        let filtered = without_key(&self.notification_counts, file_name);
        let mut nv: Vec<(String, u32)> = Vec::new();
        nv.push((file_name.to_owned(), c + 1));
        let ghost w = spec_without(old(self).notification_counts@, file_name@);
        let mut i: usize = 0;
        while i < filtered.len()
            invariant
                i <= filtered@.len(),
                filtered@ == w,
                nv@.len() == i + 1,
                nv@[0].0@ == file_name@ && nv@[0].1 == c + 1,
                forall|j: int| 1 <= j < nv@.len() ==> nv@[j] == filtered@[j - 1],
            decreases filtered@.len() - i,
        {
            let entry = (filtered[i].0.clone(), filtered[i].1);
            proof {
                assert(entry == filtered@[i as int]);
            }
            nv.push(entry);
            i = i + 1;
        }
        self.notification_counts = nv;
        proof {
            lemma_without(old(self).notification_counts@, file_name@);
            let nvv = self.notification_counts@;
            assert(nvv.skip(1) =~= w);
            assert(spec_count(nvv, file_name@) == c + 1);
            assert forall|m: Seq<char>| m != file_name@ implies #[trigger] spec_count(nvv, m)
                == spec_count(old(self).notification_counts@, m) by {
                assert(spec_count(nvv, m) == spec_count(w, m));
            }
            assert forall|i2: int, j2: int| 0 <= i2 < j2 < nvv.len() implies nvv[i2].0@
                != nvv[j2].0@ by {
                if i2 == 0 {
                    assert(nvv[j2] == w[j2 - 1]);
                } else {
                    assert(nvv[i2] == w[i2 - 1] && nvv[j2] == w[j2 - 1]);
                }
            }
        }
    }

    /// Forget the count for `file_name`; other names keep theirs.
    pub fn reset_notification_count(&mut self, file_name: &str)
        requires
            wf_counts(old(self).notification_counts@),
        ensures
            spec_count(final(self).notification_counts@, file_name@) == 0,
            forall|m: Seq<char>|
                m != file_name@ ==> #[trigger] spec_count(final(self).notification_counts@, m)
                    == spec_count(old(self).notification_counts@, m),
            wf_counts(final(self).notification_counts@),
    {
        let filtered = without_key(&self.notification_counts, file_name);
        proof {
            lemma_without(old(self).notification_counts@, file_name@);
        }
        self.notification_counts = filtered;
    }

    /// Keep only the entries whose names are listed in `current_files`;
    /// everything else is forgotten.
    pub fn retain_only_files(&mut self, current_files: &Vec<String>)
        ensures
            forall|m: Seq<char>|
                crate::paths::views_of(current_files@).contains(m) ==> #[trigger] spec_count(
                    final(self).notification_counts@,
                    m,
                ) == spec_count(old(self).notification_counts@, m),
            forall|m: Seq<char>|
                !crate::paths::views_of(current_files@).contains(m) ==> #[trigger] spec_count(
                    final(self).notification_counts@,
                    m,
                ) == 0,
            wf_counts(old(self).notification_counts@) ==> wf_counts(
                final(self).notification_counts@,
            ),
    {
        let s = &self.notification_counts;
        let mut nv: Vec<(String, u32)> = Vec::new();
        let ghost keys = crate::paths::views_of(current_files@);
        let mut i: usize = 0;
        proof {
            assert(s@.skip(0) =~= s@);
            assert(nv@ + spec_retained(s@, keys) =~= spec_retained(s@, keys));
        }
        while i < s.len()
            invariant
                i <= s@.len(),
                s == &self.notification_counts,
                *self == *old(self),
                keys == crate::paths::views_of(current_files@),
                spec_retained(s@, keys) == nv@ + spec_retained(s@.skip(i as int), keys),
            decreases s@.len() - i,
        {
            let ghost t = s@.skip(i as int);
            let ghost nv0 = nv@;
            if vec_contains_str(current_files, s[i].0.as_str()) {
                let entry = (s[i].0.clone(), s[i].1);
                proof {
                    assert(entry == s@[i as int]);
                }
                nv.push(entry);
            }
            proof {
                assert(t.skip(1) =~= s@.skip(i + 1));
                assert(nv@ + spec_retained(s@.skip(i + 1), keys) =~= nv0 + spec_retained(t, keys));
            }
            i = i + 1;
        }
        proof {
            assert(spec_retained(s@.skip(s@.len() as int), keys) =~= Seq::<(String, u32)>::empty());
            assert(nv@ =~= spec_retained(s@, keys));
            lemma_retained(old(self).notification_counts@, keys);
        }
        self.notification_counts = nv;
    }
}

impl Default for NotificationState {
    /// No notifications recorded yet.
    fn default() -> (r: Self)
        ensures
            r.notification_counts@.len() == 0,
            wf_counts(r.notification_counts@),
    {
        NotificationState { notification_counts: Vec::new() }
    }
}

/// The entries of `s` whose key is listed in `keys`.
pub open spec fn spec_retained(s: Seq<(String, u32)>, keys: Seq<Seq<char>>) -> Seq<(String, u32)>
    decreases s.len(),
{
    if s.len() == 0 {
        Seq::empty()
    } else {
        (if keys.contains(s[0].0@) {
            seq![s[0]]
        } else {
            Seq::empty()
        }) + spec_retained(s.skip(1), keys)
    }
}

/// What retaining a key set does to counts and uniqueness.
proof fn lemma_retained(s: Seq<(String, u32)>, keys: Seq<Seq<char>>)
    ensures
        forall|m: Seq<char>|
            keys.contains(m) ==> #[trigger] spec_count(spec_retained(s, keys), m) == spec_count(
                s,
                m,
            ),
        forall|m: Seq<char>|
            !keys.contains(m) ==> #[trigger] spec_count(spec_retained(s, keys), m) == 0,
        forall|k: Seq<char>|
            #[trigger] spec_has_key(spec_retained(s, keys), k) ==> spec_has_key(s, k),
        wf_counts(s) ==> wf_counts(spec_retained(s, keys)),
    decreases s.len(),
{
    if s.len() > 0 {
        lemma_retained(s.skip(1), keys);
        let head = if keys.contains(s[0].0@) {
            seq![s[0]]
        } else {
            Seq::<(String, u32)>::empty()
        };
        let rest = spec_retained(s.skip(1), keys);
        let w = spec_retained(s, keys);
        assert(w == head + rest);
        assert forall|k: Seq<char>| #[trigger] spec_has_key(w, k) implies spec_has_key(s, k) by {
            let i = choose|i: int| 0 <= i < w.len() && w[i].0@ == k;
            if i < head.len() {
                assert(s[0].0@ == k);
            } else {
                assert(rest[i - head.len()].0@ == k);
                assert(spec_has_key(rest, k));
                assert(spec_has_key(s.skip(1), k));
                let j = choose|j: int| 0 <= j < s.skip(1).len() && s.skip(1)[j].0@ == k;
                assert(s[j + 1].0@ == k);
            }
        }
        if wf_counts(s) {
            assert(wf_counts(s.skip(1))) by {
                assert(forall|i: int, j: int|
                    0 <= i < j < s.skip(1).len() ==> s.skip(1)[i] == s[i + 1] && s.skip(1)[j] == s[
                        j + 1
                    ]);
            }
            assert(wf_counts(w)) by {
                if head.len() == 1 {
                    assert forall|i: int, j: int| 0 <= i < j < w.len() implies w[i].0@
                        != w[j].0@ by {
                        if i == 0 {
                            assert(w[j] == rest[j - 1]);
                            assert(spec_has_key(rest, w[j].0@));
                            let m = choose|m: int|
                                0 <= m < s.skip(1).len() && s.skip(1)[m].0@ == w[j].0@;
                            assert(s[m + 1].0@ == w[j].0@);
                        } else {
                            assert(w[i] == rest[i - 1] && w[j] == rest[j - 1]);
                        }
                    }
                }
            }
        }
        assert forall|m: Seq<char>| keys.contains(m) implies #[trigger] spec_count(w, m)
            == spec_count(s, m) by {
            assert(spec_count(rest, m) == spec_count(s.skip(1), m));
            if s[0].0@ == m {
                assert(head =~= seq![s[0]]);
                assert(w[0] == s[0]);
                assert(spec_count(w, m) == w[0].1);
                assert(spec_count(s, m) == s[0].1);
            } else {
                assert(spec_count(s, m) == spec_count(s.skip(1), m));
                if head.len() > 0 {
                    assert(w[0] == s[0]);
                    assert(w.skip(1) =~= rest);
                    assert(spec_count(w, m) == spec_count(rest, m));
                } else {
                    assert(w =~= rest);
                }
            }
        }
        assert forall|m: Seq<char>| !keys.contains(m) implies #[trigger] spec_count(w, m)
            == 0 by {
            assert(spec_count(rest, m) == 0);
            if head.len() > 0 {
                assert(w[0] == s[0]);
                assert(s[0].0@ != m);
                assert(w.skip(1) =~= rest);
                assert(spec_count(w, m) == spec_count(rest, m));
            } else {
                assert(w =~= rest);
            }
        }
    }
}

/// Whether `x` is among the strings of `v`.
fn vec_contains_str(v: &Vec<String>, x: &str) -> (r: bool)
    ensures
        r == crate::paths::views_of(v@).contains(x@),
{
    let mut i: usize = 0;
    while i < v.len()
        invariant
            i <= v@.len(),
            forall|j: int| 0 <= j < i ==> v@[j]@ != x@,
        decreases v@.len() - i,
    {
        if crate::text::eq_str(v[i].as_str(), x) {
            proof {
                assert(crate::paths::views_of(v@)[i as int] == x@);
            }
            return true;
        }
        i = i + 1;
    }
    proof {
        assert(!crate::paths::views_of(v@).contains(x@)) by {
            if crate::paths::views_of(v@).contains(x@) {
                let j = choose|j: int|
                    0 <= j < crate::paths::views_of(v@).len() && crate::paths::views_of(v@)[j]
                        == x@;
                assert(v@[j]@ == x@);
            }
        }
    }
    false
}

/// The entries of `v` whose key is not `name`.
fn without_key(v: &Vec<(String, u32)>, name: &str) -> (r: Vec<(String, u32)>)
    ensures
        r@ == spec_without(v@, name@),
{
    let mut out: Vec<(String, u32)> = Vec::new();
    let mut i: usize = 0;
    proof {
        assert(v@.skip(0) =~= v@);
        assert(out@ + spec_without(v@, name@) =~= spec_without(v@, name@));
    }
    while i < v.len()
        invariant
            i <= v@.len(),
            spec_without(v@, name@) == out@ + spec_without(v@.skip(i as int), name@),
        decreases v@.len() - i,
    {
        let ghost t = v@.skip(i as int);
        let ghost out0 = out@;
        if !crate::text::eq_str(v[i].0.as_str(), name) {
            let entry = (v[i].0.clone(), v[i].1);
            proof {
                assert(entry == v@[i as int]);
            }
            out.push(entry);
        }
        proof {
            assert(t.skip(1) =~= v@.skip(i + 1));
            assert(out@ + spec_without(v@.skip(i + 1), name@) =~= out0 + spec_without(t, name@));
        }
        i = i + 1;
    }
    proof {
        assert(spec_without(v@.skip(v@.len() as int), name@) =~= Seq::<(String, u32)>::empty());
        assert(out@ =~= spec_without(v@, name@));
    }
    out
}

} // verus!
