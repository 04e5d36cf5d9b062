//! Decimal numerals: their values, and comparisons that work on numerals of
//! any length.
use vstd::prelude::*;

verus! {

/// A decimal digit character.
pub open spec fn is_digit(c: char) -> bool {
    '0' <= c && c <= '9'
}

/// Every character is a decimal digit (true of the empty sequence).
pub open spec fn all_digits(s: Seq<char>) -> bool {
    forall|i: int| 0 <= i < s.len() ==> is_digit(#[trigger] s[i])
}

/// One or more decimal digits.
pub open spec fn is_numeral(s: Seq<char>) -> bool {
    s.len() > 0 && all_digits(s)
}

/// The value of one digit character.
pub open spec fn digit_value(c: char) -> nat {
    ((c as u32) - ('0' as u32)) as nat
}

/// The value of a sequence of digits read in base ten; the empty sequence is 0.
pub open spec fn digits_value(s: Seq<char>) -> nat
    decreases s.len(),
{
    if s.len() == 0 {
        0
    } else {
        digits_value(s.drop_last()) * 10 + digit_value(s.last())
    }
}

pub open spec fn pow10(n: nat) -> nat
    decreases n,
{
    if n == 0 {
        1
    } else {
        10 * pow10((n - 1) as nat)
    }
}

pub proof fn lemma_pow10_positive(n: nat)
    ensures
        pow10(n) > 0,
    decreases n,
{
    if n > 0 {
        lemma_pow10_positive((n - 1) as nat);
    }
}

/// A numeral of `n` digits is less than ten to the `n`.
pub proof fn lemma_digits_value_bound(s: Seq<char>)
    requires
        all_digits(s),
    ensures
        digits_value(s) < pow10(s.len()),
    decreases s.len(),
{
    if s.len() > 0 {
        let p = s.drop_last();
        assert(all_digits(p)) by {
            assert forall|i: int| 0 <= i < p.len() implies is_digit(#[trigger] p[i]) by {
                assert(p[i] == s[i]);
            }
        }
        lemma_digits_value_bound(p);
        assert(is_digit(s[s.len() - 1]));
        let v = digits_value(p);
        let d = digit_value(s.last());
        let q = pow10(p.len());
        assert(d <= 9);
        assert(v * 10 + d < 10 * q) by (nonlinear_arith)
            requires
                v < q,
                d <= 9,
        ;
    }
}

/// The value of the digits `s`, or `cap` where that value is `cap` or more.
pub fn capped_value(s: &[char], cap: u64) -> (r: u64)
    requires
        all_digits(s@),
        cap <= 1_000_000,
    ensures
        r as nat == if digits_value(s@) < cap {
            digits_value(s@)
        } else {
            cap as nat
        },
{
    let mut r: u64 = 0;
    let mut i: usize = 0;
    while i < s.len()
        invariant
            i <= s@.len(),
            all_digits(s@),
            cap <= 1_000_000,
            r as nat == if digits_value(s@.take(i as int)) < cap {
                digits_value(s@.take(i as int))
            } else {
                cap as nat
            },
        decreases s@.len() - i,
    {
        let ghost before = s@.take(i as int);
        let ghost after = s@.take(i + 1);
        assert(after.drop_last() =~= before);
        assert(is_digit(s@[i as int]));
        let d: u64 = (s[i] as u32 - '0' as u32) as u64;
        let ghost v = digits_value(before);
        assert(digits_value(after) == v * 10 + d);
        if r < cap {
            let next = r * 10 + d;
            r = if next >= cap {
                cap
            } else {
                next
            };
        } else {
            assert(v * 10 + d >= cap) by (nonlinear_arith)
                requires
                    v >= cap,
            ;
        }
        i = i + 1;
    }
    assert(s@.take(i as int) =~= s@);
    r
}

/// The digit at position `i` of `s` written with leading zeros to `w` places.
pub open spec fn padded_digit(s: Seq<char>, w: int, i: int) -> nat {
    if i < w - s.len() {
        0
    } else {
        digit_value(s[i - (w - s.len())])
    }
}

/// The value of the first `i` places of `s` written with leading zeros to `w` places.
pub open spec fn padded_prefix_value(s: Seq<char>, w: int, i: int) -> nat
    decreases i,
{
    if i <= 0 {
        0
    } else {
        padded_prefix_value(s, w, i - 1) * 10 + padded_digit(s, w, i - 1)
    }
}

/// Leading zeros change nothing: the padded prefixes are prefixes of `s`.
pub proof fn lemma_padded_prefix_value(s: Seq<char>, w: int, i: int)
    requires
        s.len() <= w,
        0 <= i <= w,
    ensures
        padded_prefix_value(s, w, i) == if i <= w - s.len() {
            0
        } else {
            digits_value(s.take(i - (w - s.len())))
        },
    decreases i,
{
    if i > 0 {
        lemma_padded_prefix_value(s, w, i - 1);
        let k = i - (w - s.len());
        if k > 0 {
            assert(s.take(k).drop_last() =~= s.take(k - 1));
            assert(s.take(k).last() == s[k - 1]);
            assert(s.take(0) =~= Seq::<char>::empty());
            assert(padded_digit(s, w, i - 1) == digit_value(s[k - 1]));
        }
    }
}

/// Whether the value of the digits `a` is less than that of the digits `b`.
pub fn value_less(a: &[char], b: &[char]) -> (r: bool)
    requires
        all_digits(a@),
        all_digits(b@),
    ensures
        r == (digits_value(a@) < digits_value(b@)),
{
    let la = a.len();
    let lb = b.len();
    let w = if la < lb {
        lb
    } else {
        la
    };
    // -1, 0 or 1 as the padded prefix of `a` is below, equal to or above that of `b`
    let mut ord: i8 = 0;
    let mut i: usize = 0;
    while i < w
        invariant
            all_digits(a@),
            all_digits(b@),
            la == a@.len(),
            lb == b@.len(),
            la <= w,
            lb <= w,
            i <= w,
            -1 <= ord <= 1,
            (ord == 0) == (padded_prefix_value(a@, w as int, i as int) == padded_prefix_value(
                b@,
                w as int,
                i as int,
            )),
            (ord < 0) == (padded_prefix_value(a@, w as int, i as int) < padded_prefix_value(
                b@,
                w as int,
                i as int,
            )),
        decreases w - i,
    {
        let da: u32 = if i < w - la {
            0
        } else {
            assert(is_digit(a@[i - (w - la)]));
            a[i - (w - la)] as u32 - '0' as u32
        };
        let db: u32 = if i < w - lb {
            0
        } else {
            assert(is_digit(b@[i - (w - lb)]));
            b[i - (w - lb)] as u32 - '0' as u32
        };
        assert(da == padded_digit(a@, w as int, i as int));
        assert(db == padded_digit(b@, w as int, i as int));
        let ghost va = padded_prefix_value(a@, w as int, i as int);
        let ghost vb = padded_prefix_value(b@, w as int, i as int);
        assert(padded_prefix_value(a@, w as int, i + 1) == va * 10 + da);
        assert(padded_prefix_value(b@, w as int, i + 1) == vb * 10 + db);
        if ord == 0 {
            if da < db {
                ord = -1;
            } else if da > db {
                ord = 1;
            }
        } else if ord < 0 {
            assert(va * 10 + da < vb * 10 + db) by (nonlinear_arith)
                requires
                    va < vb,
                    da <= 9,
            ;
        } else {
            assert(vb * 10 + db < va * 10 + da) by (nonlinear_arith)
                requires
                    vb < va,
                    db <= 9,
            ;
        }
        i = i + 1;
    }
    proof {
        lemma_padded_prefix_value(a@, w as int, w as int);
        lemma_padded_prefix_value(b@, w as int, w as int);
        assert(a@.take(la as int) =~= a@);
        assert(b@.take(lb as int) =~= b@);
    }
    ord < 0
}

} // verus!
