//! Decimal rendering of integers, with the round-trip and injectivity facts
//! that the path-collision logic builds on.

use vstd::prelude::*;
use vstd::string::*;

verus! {

/// The character for a single decimal digit.
pub open spec fn digit_char(d: nat) -> char {
    if d == 0 {
        '0'
    } else if d == 1 {
        '1'
    } else if d == 2 {
        '2'
    } else if d == 3 {
        '3'
    } else if d == 4 {
        '4'
    } else if d == 5 {
        '5'
    } else if d == 6 {
        '6'
    } else if d == 7 {
        '7'
    } else if d == 8 {
        '8'
    } else {
        '9'
    }
}

/// The numeric value of a decimal digit character.
pub open spec fn digit_val(c: char) -> int {
    (c as u32) - ('0' as u32)
}

/// The decimal rendering of a natural number, without sign or padding.
pub open spec fn spec_dec(n: nat) -> Seq<char>
    decreases n,
{
    if n < 10 {
        seq![digit_char(n)]
    } else {
        spec_dec(n / 10).push(digit_char(n % 10))
    }
}

/// The value a digit string denotes; reading `spec_dec` back yields the
/// original number.
pub open spec fn spec_val(s: Seq<char>) -> int
    decreases s.len(),
{
    if s.len() == 0 {
        0
    } else {
        spec_val(s.drop_last()) * 10 + digit_val(s.last())
    }
}

pub proof fn lemma_digit_char_val(d: nat)
    requires
        d < 10,
    ensures
        digit_val(digit_char(d)) == d,
{
}

/// Rendering and reading back are inverse: the decimal string of `n`
/// denotes `n`.
pub proof fn lemma_dec_round_trip(n: nat)
    ensures
        spec_val(spec_dec(n)) == n,
    decreases n,
{
    if n < 10 {
        lemma_digit_char_val(n);
        assert(spec_dec(n).len() == 1);
        assert(spec_dec(n).last() == digit_char(n));
        assert(spec_dec(n).drop_last() =~= Seq::<char>::empty());
        assert(spec_val(spec_dec(n).drop_last()) == 0);
        assert(spec_val(spec_dec(n)) == spec_val(spec_dec(n).drop_last()) * 10 + digit_val(
            spec_dec(n).last(),
        ));
    } else {
        lemma_dec_round_trip(n / 10);
        lemma_digit_char_val(n % 10);
        assert(spec_dec(n).drop_last() =~= spec_dec(n / 10));
        assert(spec_val(spec_dec(n)) == (n / 10) * 10 + n % 10);
        assert((n / 10) * 10 + n % 10 == n) by (nonlinear_arith);
    }
}

/// Distinct numbers render to distinct decimal strings.
pub proof fn lemma_dec_injective(a: nat, b: nat)
    ensures
        spec_dec(a) == spec_dec(b) ==> a == b,
{
    if spec_dec(a) == spec_dec(b) {
        lemma_dec_round_trip(a);
        lemma_dec_round_trip(b);
    }
}

/// The decimal rendering is never empty.
pub proof fn lemma_dec_len(n: nat)
    ensures
        spec_dec(n).len() >= 1,
    decreases n,
{
    if n >= 10 {
        lemma_dec_len(n / 10);
    }
}

/// The single digit `d`, as a string slice.
fn digit_str(d: u64) -> (r: &'static str)
    requires
        d < 10,
    ensures
        r@ =~= seq![digit_char(d as nat)],
{
    proof {
        reveal_strlit("0");
        reveal_strlit("1");
        reveal_strlit("2");
        reveal_strlit("3");
        reveal_strlit("4");
        reveal_strlit("5");
        reveal_strlit("6");
        reveal_strlit("7");
        reveal_strlit("8");
        reveal_strlit("9");
    }
    if d == 0 {
        "0"
    } else if d == 1 {
        "1"
    } else if d == 2 {
        "2"
    } else if d == 3 {
        "3"
    } else if d == 4 {
        "4"
    } else if d == 5 {
        "5"
    } else if d == 6 {
        "6"
    } else if d == 7 {
        "7"
    } else if d == 8 {
        "8"
    } else {
        "9"
    }
}

/// Append the decimal rendering of `n` to `out`.
pub fn push_dec_u64(out: &mut String, n: u64)
    ensures
        final(out)@ == old(out)@ + spec_dec(n as nat),
    decreases n,
{
    if n < 10 {
        out.append(digit_str(n));
    } else {
        push_dec_u64(out, n / 10);
        out.append(digit_str(n % 10));
        assert(spec_dec(n as nat) =~= spec_dec((n / 10) as nat).push(digit_char((n % 10) as nat)));
        assert(old(out)@ + spec_dec((n / 10) as nat) + seq![digit_char((n % 10) as nat)] =~= old(
            out,
        )@ + spec_dec(n as nat));
    }
}

/// The decimal rendering of `n` as a fresh string.
pub fn u64_to_string(n: u64) -> (r: String)
    ensures
        r@ == spec_dec(n as nat),
{
    let mut out = String::new();
    push_dec_u64(&mut out, n);
    assert(out@ =~= spec_dec(n as nat));
    out
}

/// Decimal rendering of a possibly negative number: a minus sign before the
/// rendering of the magnitude.
pub open spec fn spec_dec_i64(n: int) -> Seq<char> {
    if n >= 0 {
        spec_dec(n as nat)
    } else {
        seq!['-'] + spec_dec((-n) as nat)
    }
}

/// Append the decimal rendering of a signed number to `out`.
pub fn push_dec_i64(out: &mut String, n: i64)
    ensures
        final(out)@ == old(out)@ + spec_dec_i64(n as int),
{
    if n >= 0 {
        push_dec_u64(out, n as u64);
    } else {
        proof {
            reveal_strlit("-");
        }
        out.append("-");
        let mag: u64 = if n == i64::MIN {
            9223372036854775808u64
        } else {
            (-n) as u64
        };
        push_dec_u64(out, mag);
        assert(old(out)@ + seq!['-'] + spec_dec(mag as nat) =~= old(out)@ + spec_dec_i64(n as int));
    }
}

/// Whether `c` is a decimal digit.
pub open spec fn spec_is_digit(c: char) -> bool {
    ('0' as u32) <= (c as u32) && (c as u32) <= ('9' as u32)
}

/// A non-empty string of decimal digits.
pub open spec fn spec_all_digits(s: Seq<char>) -> bool {
    s.len() > 0 && forall|i: int| 0 <= i < s.len() ==> spec_is_digit(#[trigger] s[i])
}

/// What parsing an unsigned number accepts: an optional leading plus, then
/// digits only, denoting a value that fits the machine.
pub open spec fn spec_parse_usize(s: Seq<char>) -> Option<int> {
    let t = if s.len() > 0 && s[0] == '+' {
        s.skip(1)
    } else {
        s
    };
    if spec_all_digits(t) && spec_val(t) <= usize::MAX {
        Some(spec_val(t))
    } else {
        None
    }
}

/// The value of a digit string is not negative.
proof fn lemma_val_nonneg(s: Seq<char>)
    requires
        forall|i: int| 0 <= i < s.len() ==> spec_is_digit(#[trigger] s[i]),
    ensures
        spec_val(s) >= 0,
    decreases s.len(),
{
    if s.len() > 0 {
        lemma_val_nonneg(s.drop_last());
        assert(forall|i: int| 0 <= i < s.len() - 1 ==> s.drop_last()[i] == s[i]);
    }
}

/// Extending a digit string does not shrink its value.
proof fn lemma_val_prefix(s: Seq<char>, k: int)
    requires
        0 <= k <= s.len(),
        forall|i: int| 0 <= i < s.len() ==> spec_is_digit(#[trigger] s[i]),
    ensures
        spec_val(s.take(k)) <= spec_val(s),
    decreases s.len() - k,
{
    if k < s.len() {
        lemma_val_prefix(s, k + 1);
        assert(s.take(k + 1).drop_last() =~= s.take(k));
        assert(s.take(k + 1).last() == s[k]);
        assert(spec_val(s.take(k + 1)) == spec_val(s.take(k)) * 10 + digit_val(s[k]));
        assert(forall|i: int| 0 <= i < k ==> s.take(k)[i] == s[i]);
        lemma_val_nonneg(s.take(k));
        assert(spec_val(s.take(k)) <= spec_val(s.take(k)) * 10) by (nonlinear_arith)
            requires
                spec_val(s.take(k)) >= 0,
        ;
        assert(spec_is_digit(s[k]));
        assert(digit_val(s[k]) >= 0);
    } else {
        assert(s.take(k) =~= s);
    }
}

/// Parse an unsigned number: an optional leading plus, then decimal
/// digits; anything else, or a value too large for the machine, is
/// rejected.
pub fn parse_usize(s: &str) -> (r: Option<usize>)
    ensures
        match r {
            Some(v) => spec_parse_usize(s@) == Some(v as int),
            None => spec_parse_usize(s@) is None,
        },
{
    proof {
        reveal_strlit("+");
    }
    let slen = s.unicode_len();
    let start: usize = if slen > 0 && s.get_char(0) == '+' {
        1
    } else {
        0
    };
    let ghost t = if s@.len() > 0 && s@[0] == '+' {
        s@.skip(1)
    } else {
        s@
    };
    proof {
        if start == 0 {
            assert(t =~= s@.skip(0));
        }
    }
    if start >= slen {
        return None;
    }
    let mut acc: usize = 0;
    let mut i: usize = start;
    while i < slen
        invariant
            start <= i <= slen,
            slen == s@.len(),
            start == 0 ==> t == s@ && !(s@.len() > 0 && s@[0] == '+'),
            start == 1 ==> s@.len() > 0 && s@[0] == '+' && t == s@.skip(1),
            start <= 1,
            t.len() == slen - start,
            forall|j: int| 0 <= j < t.len() ==> t[j] == s@[j + start],
            forall|j: int| 0 <= j < i - start ==> spec_is_digit(#[trigger] t[j]),
            acc == spec_val(t.take(i - start)),
        decreases slen - i,
    {
        let c = s.get_char(i);
        if !(('0' as u32) <= (c as u32) && (c as u32) <= ('9' as u32)) {
            proof {
                assert(t[i - start] == s@[i as int]);
                assert(!spec_is_digit(t[i - start]));
                assert(!spec_all_digits(t));
                assert(spec_parse_usize(s@) is None);
            }
            return None;
        }
        let d: usize = ((c as u32) - ('0' as u32)) as usize;
        if acc > (usize::MAX - d) / 10 {
            proof {
                assert(acc * 10 + d > usize::MAX) by (nonlinear_arith)
                    requires
                        acc > (usize::MAX - d) / 10,
                        0 <= d <= 9,
                        usize::MAX >= 10,
                ;
                assert(t.take(i - start + 1).drop_last() =~= t.take(i - start));
                assert(t.take(i - start + 1).last() == t[i - start]);
                assert(spec_val(t.take(i - start + 1)) == acc * 10 + digit_val(t[i - start]));
                assert(digit_val(t[i - start]) == d);
                if spec_all_digits(t) {
                    lemma_val_prefix(t, i - start + 1);
                    assert(spec_val(t) >= spec_val(t.take(i - start + 1)));
                    assert(spec_val(t) > usize::MAX);
                }
                assert(spec_parse_usize(s@) is None);
            }
            return None;
        }
        acc = acc * 10 + d;
        proof {
            assert(t.take(i - start + 1).drop_last() =~= t.take(i - start));
            assert(t.take(i - start + 1).last() == t[i - start]);
            assert(digit_val(t[i - start]) == d);
        }
        i = i + 1;
    }
    proof {
        assert(t.take(t.len() as int) =~= t);
        assert(spec_all_digits(t));
    }
    Some(acc)
}

/// The rendering of `n` zero-padded on the left to at least two digits.
pub open spec fn spec_pad2(n: nat) -> Seq<char> {
    if n < 10 {
        seq!['0'] + spec_dec(n)
    } else {
        spec_dec(n)
    }
}

/// The rendering of `n` zero-padded on the left to at least four digits.
pub open spec fn spec_pad4(n: nat) -> Seq<char> {
    if n < 10 {
        seq!['0', '0', '0'] + spec_dec(n)
    } else if n < 100 {
        seq!['0', '0'] + spec_dec(n)
    } else if n < 1000 {
        seq!['0'] + spec_dec(n)
    } else {
        spec_dec(n)
    }
}

/// Append `n` zero-padded to at least two digits.
pub fn push_pad2_u64(out: &mut String, n: u64)
    ensures
        final(out)@ == old(out)@ + spec_pad2(n as nat),
{
    if n < 10 {
        proof {
            reveal_strlit("0");
        }
        out.append("0");
    }
    push_dec_u64(out, n);
    assert(out@ =~= old(out)@ + spec_pad2(n as nat));
}

/// Append `n` zero-padded to at least four digits.
pub fn push_pad4_u64(out: &mut String, n: u64)
    ensures
        final(out)@ == old(out)@ + spec_pad4(n as nat),
{
    proof {
        reveal_strlit("0");
    }
    if n < 10 {
        out.append("0");
        out.append("0");
        out.append("0");
    } else if n < 100 {
        out.append("0");
        out.append("0");
    } else if n < 1000 {
        out.append("0");
    }
    push_dec_u64(out, n);
    assert(out@ =~= old(out)@ + spec_pad4(n as nat));
}

} // verus!
