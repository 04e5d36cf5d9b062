//! Reading a probability from the command line, in any of its four notations.
use vstd::prelude::*;
use vstd::slice::slice_subrange;
use vstd::string::*;
use crate::digits::{
    all_digits,
    capped_value,
    digits_value,
    is_numeral,
    lemma_digits_value_bound,
    lemma_pow10_positive,
    pow10,
    value_less,
};
use crate::grammar::{
    digits_only,
    is_number_text,
    is_percent,
    is_ratio,
    is_raw,
    match_percent,
    match_ratio,
    match_raw,
    number_text,
    percent_fraction,
    percent_whole,
    point_place,
    raw_digits,
    slash_place,
};
use crate::text::{chars_of, concat, joined, texts, trim, trim_bounds};

verus! {

/// A probability as it was written: the digits of each of its numbers.
pub enum Notation {
    /// The digits after the point of a fraction.
    Raw(Seq<char>),
    /// The digits before and after the point of a number of hundredths.
    Percent(Seq<char>, Seq<char>),
    /// The digits of `n` in "one chance in `n`".
    OneOutOf(Seq<char>),
    /// The digits of a numerator and of a denominator.
    Ratio(Seq<char>, Seq<char>),
}

impl Notation {
    /// The numerator of the probability.
    pub open spec fn numerator(self) -> nat {
        match self {
            Notation::Raw(d) => digits_value(d),
            Notation::Percent(w, f) => digits_value(w) * pow10(f.len()) + digits_value(f),
            Notation::OneOutOf(_) => 1,
            Notation::Ratio(n, _) => digits_value(n),
        }
    }

    /// The denominator of the probability.
    pub open spec fn denominator(self) -> nat {
        match self {
            Notation::Raw(d) => pow10(d.len()),
            Notation::Percent(_, f) => 100 * pow10(f.len()),
            Notation::OneOutOf(n) => digits_value(n),
            Notation::Ratio(_, d) => digits_value(d),
        }
    }

    /// The probability lies strictly between zero and one.
    pub open spec fn is_proper(self) -> bool {
        0 < self.numerator() < self.denominator()
    }
}

/// A probability in the notation it was written in; each field holds the
/// decimal digits of one number.
#[derive(Clone, Debug, PartialEq, Eq)]
pub enum Probability {
    /// `0.<digits>`
    Raw(String),
    /// `<whole>.<fraction>` hundredths
    Percent(String, String),
    /// one chance in `<digits>`
    OneOutOf(String),
    /// `<numerator>/<denominator>`
    Ratio(String, String),
}

impl View for Probability {
    type V = Notation;

    open spec fn view(&self) -> Notation {
        match self {
            Probability::Raw(d) => Notation::Raw(d@),
            Probability::Percent(w, f) => Notation::Percent(w@, f@),
            Probability::OneOutOf(n) => Notation::OneOutOf(n@),
            Probability::Ratio(n, d) => Notation::Ratio(n@, d@),
        }
    }
}

/// Why a probability could not be read.
#[derive(Clone, Copy, Debug, PartialEq, Eq, Structural)]
pub enum ParseError {
    /// Two tokens next to each other both read as numbers.
    SuccessiveNumbers,
    /// The probability is zero.
    Zero,
    /// The probability is one or more.
    NotLessThanOne,
    /// A ratio has a zero denominator.
    DivisionByZero,
    /// The text is in none of the notations.
    Unparsable,
}

impl ParseError {
    pub open spec fn spec_message(self) -> Seq<char> {
        match self {
            ParseError::SuccessiveNumbers => "successive numerical arguments"@,
            ParseError::Zero => "probability cannot be zero"@,
            ParseError::NotLessThanOne => "probability must be less than one"@,
            ParseError::DivisionByZero => "division by zero"@,
            ParseError::Unparsable => "could not parse argument"@,
        }
    }

    /// The text shown to the user for this error.
    pub fn message(&self) -> (r: String)
        ensures
            r@ == self.spec_message(),
    {
        match self {
            ParseError::SuccessiveNumbers => String::from_str("successive numerical arguments"),
            ParseError::Zero => String::from_str("probability cannot be zero"),
            ParseError::NotLessThanOne => String::from_str("probability must be less than one"),
            ParseError::DivisionByZero => String::from_str("division by zero"),
            ParseError::Unparsable => String::from_str("could not parse argument"),
        }
    }
}

/// What a parse returned, with each probability seen as its notation.
pub open spec fn outcome(r: Result<Probability, ParseError>) -> Result<Notation, ParseError> {
    match r {
        Ok(p) => Ok(p@),
        Err(e) => Err(e),
    }
}

pub open spec fn raw_notation(t: Seq<char>) -> Notation {
    Notation::Raw(raw_digits(t))
}

pub open spec fn percent_notation(t: Seq<char>) -> Notation {
    Notation::Percent(percent_whole(t), percent_fraction(t))
}

pub open spec fn ratio_notation(t: Seq<char>) -> Notation {
    Notation::Ratio(t.take(slash_place(t)), t.skip(slash_place(t) + 1))
}

/// The reading of a text with no white space at its ends: the notations are
/// tried in turn, and the first that fits decides.
pub open spec fn expression_outcome(t: Seq<char>) -> Result<Notation, ParseError> {
    if is_raw(t) {
        if raw_notation(t).numerator() == 0 {
            Err(ParseError::Zero)
        } else {
            Ok(raw_notation(t))
        }
    } else if is_percent(t) {
        let n = percent_notation(t);
        if t.len() == 1 {
            Err(ParseError::Unparsable)
        } else if n.numerator() == 0 {
            Err(ParseError::Zero)
        } else if n.numerator() >= n.denominator() {
            Err(ParseError::NotLessThanOne)
        } else {
            Ok(n)
        }
    } else if is_numeral(t) {
        if digits_value(t) == 0 {
            Err(ParseError::Zero)
        } else if digits_value(t) == 1 {
            Err(ParseError::NotLessThanOne)
        } else {
            Ok(Notation::OneOutOf(t))
        }
    } else if is_ratio(t) {
        let n = ratio_notation(t);
        if n.numerator() == 0 {
            Err(ParseError::Zero)
        } else if n.denominator() == 0 {
            Err(ParseError::DivisionByZero)
        } else if n.numerator() >= n.denominator() {
            Err(ParseError::NotLessThanOne)
        } else {
            Ok(n)
        }
    } else {
        Err(ParseError::Unparsable)
    }
}

/// Tokens `i` and `i + 1` both read as numbers.
pub open spec fn successive_at(ts: Seq<Seq<char>>, i: int) -> bool {
    0 <= i && i + 1 < ts.len() && is_number_text(ts[i]) && is_number_text(ts[i + 1])
}

pub open spec fn has_successive_numbers(ts: Seq<Seq<char>>) -> bool {
    exists|i: int| successive_at(ts, i)
}

/// The reading of the tokens of a command line.
pub open spec fn tokens_outcome(ts: Seq<Seq<char>>) -> Result<Notation, ParseError> {
    if has_successive_numbers(ts) {
        Err(ParseError::SuccessiveNumbers)
    } else {
        expression_outcome(trim(concat(ts)))
    }
}

/// Reads a text that has no white space at its ends.
fn parse_trimmed(text: &str) -> (r: Result<Probability, ParseError>)
    ensures
        outcome(r) == expression_outcome(text@),
{
    let cs = chars_of(text);
    let t = cs.as_slice();
    let n = t.len();
    if let Some(k) = match_raw(t) {
        let d = slice_subrange(t, k, n);
        assert(d@ =~= t@.skip(k as int));
        if capped_value(d, 1) == 0 {
            Err(ParseError::Zero)
        } else {
            Ok(Probability::Raw(text.substring_char(k, n).to_owned()))
        }
    } else if let Some(k) = match_percent(t) {
        if n == 1 {
            return Err(ParseError::Unparsable);
        }
        let ghost v = t@.drop_last();
        let fs = if k < n - 1 {
            k + 1
        } else {
            n - 1
        };
        let whole = slice_subrange(t, 0, k);
        let frac = slice_subrange(t, fs, n - 1);
        assert(whole@ =~= percent_whole(t@));
        assert(frac@ =~= percent_fraction(t@));
        assert(all_digits(whole@) && all_digits(frac@)) by {
            if !all_digits(v) {
                let j = point_place(v);
                assert(whole@ =~= v.take(j));
            }
        }
        let ghost vw = digits_value(whole@);
        let ghost vf = digits_value(frac@);
        let ghost p = pow10(frac@.len());
        proof {
            lemma_pow10_positive(frac@.len());
            lemma_digits_value_bound(frac@);
        }
        if capped_value(whole, 1) == 0 && capped_value(frac, 1) == 0 {
            assert(vw * p + vf == 0) by (nonlinear_arith)
                requires
                    vw == 0,
                    vf == 0,
            ;
            Err(ParseError::Zero)
        } else if capped_value(whole, 100) >= 100 {
            assert(vw * p + vf >= 100 * p) by (nonlinear_arith)
                requires
                    vw >= 100,
            ;
            Err(ParseError::NotLessThanOne)
        } else {
            assert(vw * p + vf != 0) by (nonlinear_arith)
                requires
                    vw != 0 || vf != 0,
                    p > 0,
            ;
            assert(vw * p + vf < 100 * p) by (nonlinear_arith)
                requires
                    vw < 100,
                    vf < p,
            ;
            Ok(
                Probability::Percent(
                    text.substring_char(0, k).to_owned(),
                    text.substring_char(fs, n - 1).to_owned(),
                ),
            )
        }
    } else if n > 0 && digits_only(t) {
        let v = capped_value(t, 2);
        if v == 0 {
            Err(ParseError::Zero)
        } else if v == 1 {
            Err(ParseError::NotLessThanOne)
        } else {
            Ok(Probability::OneOutOf(text.to_owned()))
        }
    } else if let Some(k) = match_ratio(t) {
        let num = slice_subrange(t, 0, k);
        let den = slice_subrange(t, k + 1, n);
        assert(num@ =~= t@.take(k as int));
        assert(den@ =~= t@.skip(k + 1));
        if capped_value(num, 1) == 0 {
            Err(ParseError::Zero)
        } else if capped_value(den, 1) == 0 {
            Err(ParseError::DivisionByZero)
        } else if !value_less(num, den) {
            Err(ParseError::NotLessThanOne)
        } else {
            Ok(
                Probability::Ratio(
                    text.substring_char(0, k).to_owned(),
                    text.substring_char(k + 1, n).to_owned(),
                ),
            )
        }
    } else {
        Err(ParseError::Unparsable)
    }
}

/// Reads a probability from one text, white space at its ends aside.
pub fn parse_expression(text: &str) -> (r: Result<Probability, ParseError>)
    ensures
        outcome(r) == expression_outcome(trim(text@)),
        r is Ok ==> r->Ok_0@.is_proper(),
{
    proof {
        lemma_accepted_is_proper(trim(text@));
    }
    let cs = chars_of(text);
    let (lo, hi) = trim_bounds(cs.as_slice());
    parse_trimmed(text.substring_char(lo, hi))
}

/// Whether two tokens next to each other both read as numbers.
pub fn successive_numbers(tokens: &Vec<String>) -> (r: bool)
    ensures
        r == has_successive_numbers(texts(tokens@)),
{
    let ghost ts = texts(tokens@);
    let mut prev = false;
    let mut i: usize = 0;
    while i < tokens.len()
        invariant
            ts == texts(tokens@),
            i <= tokens@.len(),
            prev == (i > 0 && is_number_text(ts[i - 1])),
            forall|j: int| j + 1 < i ==> !successive_at(ts, j),
        decreases tokens@.len() - i,
    {
        let cs = chars_of(tokens[i].as_str());
        let cur = number_text(cs.as_slice());
        if prev && cur {
            assert(successive_at(ts, i - 1));
            return true;
        }
        prev = cur;
        i = i + 1;
    }
    false
}

/// Reads a probability from the tokens of a command line: two tokens next to
/// each other that both read as numbers are refused; the rest are joined with
/// no separator, and the text, white space at its ends aside, is read in the
/// first notation that fits.
pub fn parse_tokens(tokens: &Vec<String>) -> (r: Result<Probability, ParseError>)
    ensures
        outcome(r) == tokens_outcome(texts(tokens@)),
        (r == Err::<Probability, ParseError>(ParseError::SuccessiveNumbers))
            == has_successive_numbers(texts(tokens@)),
        r is Ok ==> r->Ok_0@.is_proper(),
{
    if successive_numbers(tokens) {
        return Err(ParseError::SuccessiveNumbers);
    }
    let text = joined(tokens);
    parse_expression(text.as_str())
}

/// Whatever text is accepted, its probability lies strictly between zero and one.
pub proof fn lemma_accepted_is_proper(t: Seq<char>)
    ensures
        expression_outcome(t) is Ok ==> expression_outcome(t)->Ok_0.is_proper(),
{
    if is_raw(t) {
        let d = raw_digits(t);
        assert(all_digits(d));
        lemma_digits_value_bound(d);
    }
}

/// A text in any one of the four notations whose probability lies strictly
/// between zero and one is accepted, in that notation, whatever the order in
/// which the notations are tried.
pub proof fn lemma_notation_accepted(t: Seq<char>)
    ensures
        is_raw(t) && raw_notation(t).is_proper() ==> expression_outcome(t) == Ok::<
            Notation,
            ParseError,
        >(raw_notation(t)),
        is_percent(t) && percent_notation(t).is_proper() ==> expression_outcome(t) == Ok::<
            Notation,
            ParseError,
        >(percent_notation(t)),
        is_numeral(t) && Notation::OneOutOf(t).is_proper() ==> expression_outcome(t) == Ok::<
            Notation,
            ParseError,
        >(Notation::OneOutOf(t)),
        is_ratio(t) && ratio_notation(t).is_proper() ==> expression_outcome(t) == Ok::<
            Notation,
            ParseError,
        >(ratio_notation(t)),
{
    if is_percent(t) {
        // a percent ends with '%', which no other notation holds
        assert(!is_raw(t)) by {
            if t.len() > 0 && t[0] == '.' && is_numeral(t.skip(1)) {
                assert(t.skip(1)[t.len() - 2] == t.last());
            } else if t.len() > 1 && t[0] == '0' && t[1] == '.' && is_numeral(t.skip(2)) {
                assert(t.skip(2)[t.len() - 3] == t.last());
            }
        }
        if t.len() == 1 {
            assert(percent_whole(t) =~= Seq::<char>::empty());
            assert(percent_fraction(t) =~= Seq::<char>::empty());
            assert(digits_value(percent_whole(t)) == 0);
            assert(digits_value(percent_fraction(t)) == 0);
            let w = percent_whole(t);
            let f = percent_fraction(t);
            assert(percent_notation(t).numerator() == digits_value(w) * pow10(f.len())
                + digits_value(f));
            assert(digits_value(w) * pow10(f.len()) == 0);
        }
    }
    if is_numeral(t) {
        assert(!is_raw(t)) by {
            if t.len() > 0 && t[0] == '.' {
            } else if t.len() > 1 {
                assert(!crate::digits::is_digit(t[1]) || t[1] != '.');
            }
        }
        assert(!is_percent(t)) by {
            if t.len() > 0 {
                assert(crate::digits::is_digit(t[t.len() - 1]));
            }
        }
    }
    if is_ratio(t) {
        let k = slash_place(t);
        assert(crate::grammar::is_slash_at(t, k));
        assert(!is_raw(t)) by {
            if t.len() > 0 && t[0] == '.' && is_numeral(t.skip(1)) {
                assert(t.skip(1)[k - 1] == t[k]);
            } else if t.len() > 1 && t[0] == '0' && t[1] == '.' && is_numeral(t.skip(2)) {
                if k >= 2 {
                    assert(t.skip(2)[k - 2] == t[k]);
                } else {
                    assert(t.take(k)[0] == t[0]);
                }
            }
        }
        assert(!is_percent(t)) by {
            assert(t.skip(k + 1)[t.len() - k - 2] == t.last());
        }
        assert(!is_numeral(t)) by {
            assert(!crate::digits::is_digit(t[k]));
        }
    }
}

} // verus!
