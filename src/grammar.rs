//! The four notations of a probability, and the shape of a token that reads
//! as a number on its own.
use vstd::prelude::*;
use vstd::slice::slice_subrange;
use crate::digits::{all_digits, is_digit, is_numeral};
use crate::text::find_char;

verus! {

/// Whether every character of `s` is a decimal digit.
pub fn digits_only(s: &[char]) -> (r: bool)
    ensures
        r == all_digits(s@),
{
    let mut i: usize = 0;
    while i < s.len()
        invariant
            i <= s@.len(),
            forall|j: int| 0 <= j < i ==> is_digit(#[trigger] s@[j]),
        decreases s@.len() - i,
    {
        if !('0' <= s[i] && s[i] <= '9') {
            return false;
        }
        i = i + 1;
    }
    true
}

/// A character `c` that is no digit stands at `k`, after digits only: `k` is the
/// first place of `c`, whichever place `f` is known to be the first.
proof fn lemma_first_place(s: Seq<char>, c: char, k: int, f: int)
    requires
        0 <= k < s.len(),
        s[k] == c,
        !is_digit(c),
        all_digits(s.take(k)),
        0 <= f <= s.len(),
        forall|j: int| 0 <= j < f ==> s[j] != c,
        f < s.len() ==> s[f] == c,
    ensures
        k == f,
{
    if f < k {
        assert(s.take(k)[f] == s[f]);
    }
}

/// `.5` or `0.5`: a fraction written with its digits after the point.
pub open spec fn is_raw(t: Seq<char>) -> bool {
    ||| t.len() > 0 && t[0] == '.' && is_numeral(t.skip(1))
    ||| t.len() > 1 && t[0] == '0' && t[1] == '.' && is_numeral(t.skip(2))
}

/// The digits after the point of a fraction.
pub open spec fn raw_digits(t: Seq<char>) -> Seq<char> {
    if t[0] == '.' {
        t.skip(1)
    } else {
        t.skip(2)
    }
}

/// A point at `k` with digits before it and one or more digits after it.
pub open spec fn is_point_at(v: Seq<char>, k: int) -> bool {
    &&& 0 <= k < v.len()
    &&& v[k] == '.'
    &&& all_digits(v.take(k))
    &&& is_numeral(v.skip(k + 1))
}

/// Digits, optionally followed by a point and one or more digits; possibly empty.
pub open spec fn is_percent_number(v: Seq<char>) -> bool {
    all_digits(v) || exists|k: int| is_point_at(v, k)
}

/// `50%` or `.5%`: a number of hundredths (the number may be missing: `%`).
pub open spec fn is_percent(t: Seq<char>) -> bool {
    t.len() > 0 && t.last() == '%' && is_percent_number(t.drop_last())
}

/// Where the point of a percent number stands; its length where it has none.
pub open spec fn point_place(v: Seq<char>) -> int {
    if all_digits(v) {
        v.len() as int
    } else {
        choose|k: int| is_point_at(v, k)
    }
}

/// The digits of a percent number before its point.
pub open spec fn percent_whole(t: Seq<char>) -> Seq<char> {
    t.drop_last().take(point_place(t.drop_last()))
}

/// The digits of a percent number after its point; none where it has no point.
pub open spec fn percent_fraction(t: Seq<char>) -> Seq<char> {
    let v = t.drop_last();
    if point_place(v) < v.len() {
        v.skip(point_place(v) + 1)
    } else {
        Seq::empty()
    }
}

/// A slash at `k` between two numerals.
pub open spec fn is_slash_at(t: Seq<char>, k: int) -> bool {
    &&& 0 <= k < t.len()
    &&& t[k] == '/'
    &&& is_numeral(t.take(k))
    &&& is_numeral(t.skip(k + 1))
}

/// `1/3`: a numerator and a denominator.
pub open spec fn is_ratio(t: Seq<char>) -> bool {
    exists|k: int| is_slash_at(t, k)
}

/// Where the slash of a ratio stands.
pub open spec fn slash_place(t: Seq<char>) -> int {
    choose|k: int| is_slash_at(t, k)
}

/// Where the digits of a fraction begin, if `t` is one.
pub fn match_raw(t: &[char]) -> (r: Option<usize>)
    ensures
        r is Some <==> is_raw(t@),
        r is Some ==> r->0 <= t@.len() && t@.skip(r->0 as int) == raw_digits(t@),
{
    let n = t.len();
    if n > 1 && t[0] == '.' {
        let d = slice_subrange(t, 1, n);
        assert(d@ =~= t@.skip(1));
        if digits_only(d) {
            return Some(1);
        }
    } else if n > 2 && t[0] == '0' && t[1] == '.' {
        let d = slice_subrange(t, 2, n);
        assert(d@ =~= t@.skip(2));
        if digits_only(d) {
            return Some(2);
        }
    }
    None
}

/// Where the point of a percent number stands (its length where it has none), if
/// `t` is a percent.
pub fn match_percent(t: &[char]) -> (r: Option<usize>)
    ensures
        r is Some <==> is_percent(t@),
        r is Some ==> {
            &&& r->0 < t@.len()
            &&& r->0 == point_place(t@.drop_last())
        },
{
    let n = t.len();
    if n == 0 || t[n - 1] != '%' {
        return None;
    }
    let v = slice_subrange(t, 0, n - 1);
    assert(v@ =~= t@.drop_last());
    let k = find_char(v, '.');
    if k == v.len() {
        let r = digits_only(v);
        proof {
            if !r {
                assert forall|j: int| !is_point_at(v@, j) by {
                    if 0 <= j < v@.len() {
                        assert(v@[j] != '.');
                    }
                }
            }
        }
        if r {
            Some(k)
        } else {
            None
        }
    } else {
        let whole = slice_subrange(v, 0, k);
        let frac = slice_subrange(v, k + 1, v.len());
        assert(whole@ =~= v@.take(k as int));
        assert(frac@ =~= v@.skip(k + 1));
        assert(!all_digits(v@)) by {
            assert(!is_digit(v@[k as int]));
        }
        let r = k + 1 < v.len() && digits_only(whole) && digits_only(frac);
        proof {
            assert forall|j: int| is_point_at(v@, j) implies j == k by {
                lemma_first_place(v@, '.', j, k as int);
            }
            if r {
                assert(is_point_at(v@, k as int));
            }
        }
        if r {
            Some(k)
        } else {
            None
        }
    }
}

/// Where the slash stands, if `t` is a ratio.
pub fn match_ratio(t: &[char]) -> (r: Option<usize>)
    ensures
        r is Some <==> is_ratio(t@),
        r is Some ==> r->0 < t@.len() && r->0 == slash_place(t@),
{
    let n = t.len();
    let k = find_char(t, '/');
    proof {
        assert forall|j: int| is_slash_at(t@, j) implies j == k by {
            lemma_first_place(t@, '/', j, k as int);
        }
    }
    if k < n && 0 < k && k + 1 < n {
        let num = slice_subrange(t, 0, k);
        let den = slice_subrange(t, k + 1, n);
        assert(num@ =~= t@.take(k as int));
        assert(den@ =~= t@.skip(k + 1));
        if digits_only(num) && digits_only(den) {
            assert(is_slash_at(t@, k as int));
            return Some(k);
        }
    }
    None
}

pub open spec fn is_sign(c: char) -> bool {
    c == '+' || c == '-'
}

pub open spec fn is_exponent_mark(c: char) -> bool {
    c == 'e' || c == 'E'
}

/// `s` spells the word written `lower` in small letters and `upper` in capitals,
/// each letter in either case.
pub open spec fn spells(s: Seq<char>, lower: Seq<char>, upper: Seq<char>) -> bool {
    &&& s.len() == lower.len()
    &&& forall|i: int| 0 <= i < s.len() ==> s[i] == lower[i] || s[i] == upper[i]
}

/// A point at `k`, digits before it and digits after it.
pub open spec fn is_loose_point_at(m: Seq<char>, k: int) -> bool {
    &&& 0 <= k < m.len()
    &&& m[k] == '.'
    &&& all_digits(m.take(k))
    &&& all_digits(m.skip(k + 1))
}

/// Digits with at most one point among them, and at least one digit.
pub open spec fn is_mantissa(m: Seq<char>) -> bool {
    is_numeral(m) || (m.len() > 1 && exists|k: int| is_loose_point_at(m, k))
}

/// `e` or `E`, an optional sign, and one or more digits.
pub open spec fn is_exponent(e: Seq<char>) -> bool {
    &&& e.len() > 0
    &&& is_exponent_mark(e[0])
    &&& (is_numeral(e.skip(1)) || (e.len() > 1 && is_sign(e[1]) && is_numeral(e.skip(2))))
}

/// A mantissa, optionally followed by an exponent.
pub open spec fn is_decimal_number(s: Seq<char>) -> bool {
    exists|m: int|
        0 <= m <= s.len() && is_mantissa(#[trigger] s.take(m)) && (m == s.len() || is_exponent(
            s.skip(m),
        ))
}

/// A number without its sign: infinity, not-a-number, or a decimal number.
pub open spec fn is_unsigned_number(s: Seq<char>) -> bool {
    ||| spells(s, seq!['i', 'n', 'f'], seq!['I', 'N', 'F'])
    ||| spells(
        s,
        seq!['i', 'n', 'f', 'i', 'n', 'i', 't', 'y'],
        seq!['I', 'N', 'F', 'I', 'N', 'I', 'T', 'Y'],
    )
    ||| spells(s, seq!['n', 'a', 'n'], seq!['N', 'A', 'N'])
    ||| is_decimal_number(s)
}

/// What reads as a double-precision number: an optional sign, then an unsigned
/// number.
pub open spec fn is_number_text(s: Seq<char>) -> bool {
    ||| is_unsigned_number(s)
    ||| s.len() > 0 && is_sign(s[0]) && is_unsigned_number(s.skip(1))
}

proof fn lemma_mantissa_chars(m: Seq<char>)
    requires
        is_mantissa(m),
    ensures
        forall|j: int| 0 <= j < m.len() ==> !is_exponent_mark(#[trigger] m[j]),
{
    if !is_numeral(m) {
        let k = choose|k: int| is_loose_point_at(m, k);
        assert forall|j: int| 0 <= j < m.len() implies !is_exponent_mark(#[trigger] m[j]) by {
            if j < k {
                assert(m.take(k)[j] == m[j]);
            } else if j > k {
                assert(m.skip(k + 1)[j - k - 1] == m[j]);
            }
        }
    } else {
        assert forall|j: int| 0 <= j < m.len() implies !is_exponent_mark(#[trigger] m[j]) by {
            assert(is_digit(m[j]));
        }
    }
}

/// Whether `s` spells the word written `lower` in small letters and `upper` in
/// capitals, each letter in either case.
fn spells_word(s: &[char], lower: &[char], upper: &[char]) -> (r: bool)
    requires
        lower@.len() == upper@.len(),
    ensures
        r == spells(s@, lower@, upper@),
{
    if s.len() != lower.len() {
        return false;
    }
    let mut i: usize = 0;
    while i < s.len()
        invariant
            s@.len() == lower@.len(),
            lower@.len() == upper@.len(),
            i <= s@.len(),
            forall|j: int| 0 <= j < i ==> s@[j] == lower@[j] || s@[j] == upper@[j],
        decreases s@.len() - i,
    {
        if s[i] != lower[i] && s[i] != upper[i] {
            return false;
        }
        i = i + 1;
    }
    true
}

fn mantissa(m: &[char]) -> (r: bool)
    ensures
        r == is_mantissa(m@),
{
    let n = m.len();
    let k = find_char(m, '.');
    if k == n {
        let r = n > 0 && digits_only(m);
        proof {
            assert forall|j: int| !is_loose_point_at(m@, j) by {
                if 0 <= j < n {
                    assert(m@[j] != '.');
                }
            }
        }
        r
    } else {
        let before = slice_subrange(m, 0, k);
        let after = slice_subrange(m, k + 1, n);
        assert(before@ =~= m@.take(k as int));
        assert(after@ =~= m@.skip(k + 1));
        assert(!is_numeral(m@)) by {
            assert(!is_digit(m@[k as int]));
        }
        let r = n > 1 && digits_only(before) && digits_only(after);
        proof {
            assert forall|j: int| is_loose_point_at(m@, j) implies j == k by {
                lemma_first_place(m@, '.', j, k as int);
            }
            if r {
                assert(is_loose_point_at(m@, k as int));
            }
        }
        r
    }
}

fn exponent(e: &[char]) -> (r: bool)
    ensures
        r == is_exponent(e@),
{
    let n = e.len();
    if n == 0 || !(e[0] == 'e' || e[0] == 'E') {
        return false;
    }
    let rest = slice_subrange(e, 1, n);
    assert(rest@ =~= e@.skip(1));
    if n > 1 && digits_only(rest) {
        return true;
    }
    if n > 2 && (e[1] == '+' || e[1] == '-') {
        let digits = slice_subrange(e, 2, n);
        assert(digits@ =~= e@.skip(2));
        return digits_only(digits);
    }
    false
}

/// The first exponent mark of `s`, or its length where there is none.
fn find_exponent_mark(s: &[char]) -> (k: usize)
    ensures
        k <= s@.len(),
        forall|j: int| 0 <= j < k ==> !is_exponent_mark(#[trigger] s@[j]),
        k < s@.len() ==> is_exponent_mark(s@[k as int]),
{
    let mut k: usize = 0;
    while k < s.len() && !(s[k] == 'e' || s[k] == 'E')
        invariant
            k <= s@.len(),
            forall|j: int| 0 <= j < k ==> !is_exponent_mark(#[trigger] s@[j]),
        decreases s@.len() - k,
    {
        k = k + 1;
    }
    k
}

fn decimal_number(s: &[char]) -> (r: bool)
    ensures
        r == is_decimal_number(s@),
{
    let n = s.len();
    let m = find_exponent_mark(s);
    let head = slice_subrange(s, 0, m);
    let tail = slice_subrange(s, m, n);
    assert(head@ =~= s@.take(m as int));
    assert(tail@ =~= s@.skip(m as int));
    let r = mantissa(head) && (m == n || exponent(tail));
    proof {
        assert forall|j: int|
            0 <= j <= s@.len() && is_mantissa(#[trigger] s@.take(j)) && (j == s@.len()
                || is_exponent(s@.skip(j))) implies j == m by {
            lemma_mantissa_chars(s@.take(j));
            if m < j {
                assert(s@.take(j)[m as int] == s@[m as int]);
            }
            if j < m {
                assert(s@.skip(j)[0] == s@[j]);
            }
        }
    }
    r
}

fn unsigned_number(s: &[char]) -> (r: bool)
    ensures
        r == is_unsigned_number(s@),
{
    let inf = ['i', 'n', 'f'];
    let inf_upper = ['I', 'N', 'F'];
    let infinity = ['i', 'n', 'f', 'i', 'n', 'i', 't', 'y'];
    let infinity_upper = ['I', 'N', 'F', 'I', 'N', 'I', 'T', 'Y'];
    let nan = ['n', 'a', 'n'];
    let nan_upper = ['N', 'A', 'N'];
    assert(inf@ =~= seq!['i', 'n', 'f']);
    assert(inf_upper@ =~= seq!['I', 'N', 'F']);
    assert(infinity@ =~= seq!['i', 'n', 'f', 'i', 'n', 'i', 't', 'y']);
    assert(infinity_upper@ =~= seq!['I', 'N', 'F', 'I', 'N', 'I', 'T', 'Y']);
    assert(nan@ =~= seq!['n', 'a', 'n']);
    assert(nan_upper@ =~= seq!['N', 'A', 'N']);
    spells_word(s, &inf, &inf_upper) || spells_word(s, &infinity, &infinity_upper) || spells_word(
        s,
        &nan,
        &nan_upper,
    ) || decimal_number(s)
}

/// Whether `s` reads as a double-precision number on its own: an optional sign,
/// then infinity, not-a-number (both in letters of either case) or a decimal
/// number with an optional exponent.
pub fn number_text(s: &[char]) -> (r: bool)
    ensures
        r == is_number_text(s@),
{
    let n = s.len();
    if unsigned_number(s) {
        return true;
    }
    if n > 0 && (s[0] == '+' || s[0] == '-') {
        let rest = slice_subrange(s, 1, n);
        assert(rest@ =~= s@.skip(1));
        return unsigned_number(rest);
    }
    false
}

} // verus!
