//! Epitaphs: the note file written beside every archived original copy.
//! The content is rendered once and its byte layout is part of the on-disk
//! contract; the search side reads the free-text note back out of it.

use vstd::prelude::*;
use vstd::string::*;

use crate::text::{find_sub, occurs_at, spec_contains};
use crate::timestamp::{spec_format_datetime_utc, Timestamp};

verus! {

/// The name of the note file that accompanies an archived item.
pub open spec fn spec_epitaph_filename(name: Seq<char>) -> Seq<char> {
    name + ".epitaph"@
}

/// `<item_name>.epitaph`.
pub fn epitaph_filename(name: &str) -> (r: String)
    ensures
        r@ == spec_epitaph_filename(name@),
{
    let mut out = name.to_owned();
    out.append(".epitaph");
    out
}

/// The exact epitaph file content: a fixed header naming the item, its
/// three timestamps and the hostname, a blank line, then the note.
pub open spec fn spec_epitaph_content(
    name: Seq<char>,
    archived: Timestamp,
    created: Timestamp,
    modified: Timestamp,
    host: Seq<char>,
    note: Seq<char>,
) -> Seq<char> {
    "# Epitaph for "@ + name + "\n# Archived: "@ + spec_format_datetime_utc(archived)
        + "\n# Created: "@ + spec_format_datetime_utc(created) + "\n# Modified: "@
        + spec_format_datetime_utc(modified) + "\n# Hostname: "@ + host + "\n\n"@ + note
}

/// Render the epitaph content for one archived item. It is rendered exactly
/// once per archive operation; additional original views receive copies of
/// these bytes, never a re-rendering.
pub fn render_epitaph(
    name: &str,
    archived: &Timestamp,
    created: &Timestamp,
    modified: &Timestamp,
    host: &str,
    note: &str,
) -> (r: String)
    ensures
        r@ == spec_epitaph_content(name@, *archived, *created, *modified, host@, note@),
{
    let mut out = String::new();
    out.append("# Epitaph for ");
    out.append(name);
    out.append("\n# Archived: ");
    let a = archived.format_datetime_utc();
    out.append(a.as_str());
    out.append("\n# Created: ");
    let c = created.format_datetime_utc();
    out.append(c.as_str());
    out.append("\n# Modified: ");
    let m = modified.format_datetime_utc();
    out.append(m.as_str());
    out.append("\n# Hostname: ");
    out.append(host);
    out.append("\n\n");
    out.append(note);
    proof {
        assert(out@ =~= spec_epitaph_content(name@, *archived, *created, *modified, host@, note@));
    }
    out
}

/// What `char::is_whitespace` returns; a fixed function of the character
/// given by the Unicode tables.
pub uninterp spec fn is_space(c: char) -> bool;

/// Relies on `char::is_whitespace`: which characters count as Unicode
/// whitespace.
#[verifier::external_body]
fn char_is_whitespace(c: char) -> (r: bool)
    ensures
        r == is_space(c),
{
    c.is_whitespace()
}

/// `s` without its leading whitespace.
pub open spec fn spec_trim_front(s: Seq<char>) -> Seq<char>
    decreases s.len(),
{
    if s.len() > 0 && is_space(s[0]) {
        spec_trim_front(s.skip(1))
    } else {
        s
    }
}

/// `s` without its trailing whitespace.
pub open spec fn spec_trim_back(s: Seq<char>) -> Seq<char>
    decreases s.len(),
{
    if s.len() > 0 && is_space(s.last()) {
        spec_trim_back(s.drop_last())
    } else {
        s
    }
}

/// `s` without leading and trailing whitespace.
pub open spec fn spec_trim(s: Seq<char>) -> Seq<char> {
    spec_trim_back(spec_trim_front(s))
}

proof fn lemma_trim_front_skip(s: Seq<char>, i: int)
    requires
        0 <= i <= s.len(),
        forall|j: int| 0 <= j < i ==> is_space(s[j]),
    ensures
        spec_trim_front(s) == spec_trim_front(s.skip(i)),
    decreases i,
{
    if i == 0 {
        assert(s.skip(0) =~= s);
    } else {
        assert(spec_trim_front(s) == spec_trim_front(s.skip(1)));
        lemma_trim_front_skip(s.skip(1), i - 1);
        assert(s.skip(1).skip(i - 1) =~= s.skip(i));
    }
}

proof fn lemma_trim_back_take(s: Seq<char>, i: int)
    requires
        0 <= i <= s.len(),
        forall|j: int| i <= j < s.len() ==> is_space(s[j]),
    ensures
        spec_trim_back(s) == spec_trim_back(s.take(i)),
    decreases s.len() - i,
{
    if i == s.len() {
        assert(s.take(i) =~= s);
    } else {
        assert(spec_trim_back(s) == spec_trim_back(s.drop_last()));
        assert(s.drop_last() =~= s.take(s.len() - 1));
        lemma_trim_back_take(s.take(s.len() - 1), i);
        assert(s.take(s.len() - 1).take(i) =~= s.take(i));
    }
}

/// `s` with leading and trailing whitespace removed.
pub fn trim_str(s: &str) -> (r: String)
    ensures
        r@ == spec_trim(s@),
{
    let slen = s.unicode_len();
    let mut lo: usize = 0;
    while lo < slen && char_is_whitespace(s.get_char(lo))
        invariant
            lo <= slen,
            slen == s@.len(),
            forall|j: int| 0 <= j < lo ==> is_space(s@[j]),
        decreases slen - lo,
    {
        lo = lo + 1;
    }
    proof {
        lemma_trim_front_skip(s@, lo as int);
        if lo < slen {
            assert(s@.skip(lo as int)[0] == s@[lo as int]);
            assert(spec_trim_front(s@.skip(lo as int)) == s@.skip(lo as int));
        } else {
            assert(s@.skip(lo as int) =~= Seq::<char>::empty());
        }
    }
    let ghost f = s@.skip(lo as int);
    let mut hi: usize = slen;
    while hi > lo && char_is_whitespace(s.get_char(hi - 1))
        invariant
            lo <= hi <= slen,
            slen == s@.len(),
            forall|j: int| hi <= j < slen ==> is_space(s@[j]),
        decreases hi,
    {
        hi = hi - 1;
    }
    proof {
        assert(forall|j: int| hi - lo <= j < f.len() ==> is_space(f[j]));
        lemma_trim_back_take(f, hi - lo);
        if hi > lo {
            assert(f.take(hi - lo).last() == s@[hi - 1]);
            assert(spec_trim_back(f.take(hi - lo)) == f.take(hi - lo));
        } else {
            assert(f.take(hi - lo) =~= Seq::<char>::empty());
        }
    }
    let r = s.substring_char(lo, hi);
    proof {
        assert(r@ =~= f.take(hi - lo));
    }
    r.to_owned()
}

/// Where the note text of an epitaph file starts: right after the first
/// blank line, i.e. the first `\n\n`.
pub open spec fn spec_note_of(content: Seq<char>) -> Option<Seq<char>> {
    if spec_contains(content, "\n\n"@) {
        let i = choose|i: int|
            occurs_at(content, "\n\n"@, i) && forall|j: int|
                0 <= j < i ==> !occurs_at(content, "\n\n"@, j);
        if spec_trim(content.skip(i + 2)).len() > 0 {
            Some(spec_trim(content.skip(i + 2)))
        } else {
            None
        }
    } else {
        None
    }
}

/// The trimmed free-text note of an epitaph file, when there is one: what
/// follows the first blank line, unless that is empty.
pub fn epitaph_note(content: &str) -> (r: Option<String>)
    ensures
        match r {
            Some(n) => spec_note_of(content@) == Some(n@),
            None => spec_note_of(content@) is None,
        },
{
    proof {
        reveal_strlit("\n\n");
    }
    let slen = content.unicode_len();
    match find_sub(content, "\n\n") {
        Some(i) => {
            let rest = content.substring_char(i + 2, slen);
            let note = trim_str(rest);
            proof {
                let wi = choose|w: int|
                    occurs_at(content@, "\n\n"@, w) && forall|j: int|
                        0 <= j < w ==> !occurs_at(content@, "\n\n"@, j);
                assert(wi == i as int) by {
                    if wi < i as int {
                        assert(!occurs_at(content@, "\n\n"@, wi));
                    } else if wi > i as int {
                        assert(!occurs_at(content@, "\n\n"@, i as int));
                    }
                }
                assert(rest@ =~= content@.skip(i + 2));
            }
            if note.unicode_len() > 0 {
                Some(note)
            } else {
                None
            }
        },
        None => None,
    }
}

} // verus!
