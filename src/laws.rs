use vstd::prelude::*;
use crate::parsers::{
    decimal_value, digit_run, digits_rest, digits_value, is_digit, is_suffix, lemma_run_len,
    many_inputs, many_rest, Choice, Many, Parser,
};

verus! {

/// A run of digits followed by text that does not start with a digit parses to
/// the number the digits spell, leaving exactly that text, whenever the number
/// fits an `i64`.
pub proof fn lemma_digits_then_tail(ds: Seq<char>, tail: Seq<char>)
    requires
        ds.len() > 0,
        forall|j: int| 0 <= j < ds.len() ==> is_digit(#[trigger] ds[j]),
        tail.len() == 0 || !is_digit(tail[0]),
        decimal_value(ds) <= i64::MAX,
    ensures
        digits_rest(ds + tail) == Some(tail),
        digits_value(ds + tail) == decimal_value(ds),
{
    let s = ds + tail;
    assert forall|j: int| 0 <= j < ds.len() implies is_digit(#[trigger] s[j]) by {
        assert(s[j] == ds[j]);
    }
    if tail.len() > 0 {
        assert(s[ds.len() as int] == tail[0]);
    }
    lemma_run_len(s, |c: char| is_digit(c), ds.len() as int);
    assert(digit_run(s) == ds.len());
    assert(s.take(ds.len() as int) =~= ds);
    assert(s.skip(ds.len() as int) =~= tail);
}

/// Ordered choice is left-biased: when the first parser succeeds, the choice
/// gives exactly its result, whatever the second would give.
pub proof fn lemma_choice_left_biased<T, P1: Parser<T>, P2: Parser<T>>(
    p1: P1,
    p2: P2,
    s: Seq<char>,
)
    requires
        p1.spec_rest(s) is Some,
    ensures
        (Choice { first: p1, second: p2 }).spec_rest(s) == p1.spec_rest(s),
        forall|v: T|
            (Choice { first: p1, second: p2 }).spec_value(s, v) == #[trigger] p1.spec_value(s, v),
{
}

/// Repetition never fails, and on empty input it gives no values and the empty
/// remainder.
pub proof fn lemma_many_never_fails<T, P: Parser<T>>(p: P, s: Seq<char>)
    ensures
        (Many { parser: p }).spec_rest(s) is Some,
        (Many { parser: p }).spec_rest(Seq::<char>::empty()) == Some(Seq::<char>::empty()),
        many_inputs::<T, P>(p, Seq::<char>::empty()).len() == 0,
        forall|v: Vec<T>|
            #[trigger] (Many { parser: p }).spec_value(Seq::<char>::empty(), v) <==> v@.len() == 0,
{
    let e = Seq::<char>::empty();
    p.lemma_rest_is_suffix(e);
    assert(many_rest::<T, P>(p, e) == e);
}

/// Nothing is lost in slicing: the consumed prefix followed by the remainder is
/// the input, for every parser.
pub proof fn lemma_consumed_then_rest<T, P: Parser<T>>(p: P, s: Seq<char>)
    requires
        p.spec_rest(s) is Some,
    ensures
        ({
            let r = p.spec_rest(s)->0;
            &&& is_suffix(r, s)
            &&& s.take(s.len() - r.len()) + r == s
        }),
{
    p.lemma_rest_is_suffix(s);
    let r = p.spec_rest(s)->0;
    assert(s.take(s.len() - r.len()) + r =~= s);
}

} // verus!
