use vstd::prelude::*;

verus! {

/// `r` is a suffix of `s`: what is left after a prefix of `s` was consumed.
pub open spec fn is_suffix(r: Seq<char>, s: Seq<char>) -> bool {
    r.len() <= s.len() && r == s.subrange(s.len() - r.len(), s.len() as int)
}

/// Being a suffix is transitive.
pub proof fn lemma_suffix_trans(a: Seq<char>, b: Seq<char>, c: Seq<char>)
    requires
        is_suffix(a, b),
        is_suffix(b, c),
    ensures
        is_suffix(a, c),
{
    assert(a =~= c.subrange(c.len() - a.len(), c.len() as int));
}

/// A parser of values of type `T`.
///
/// `spec_rest(s)` is `None` when the parser fails on `s` and otherwise the
/// remainder it leaves; `spec_value(s, v)` says that `v` is a value the parser
/// may produce on `s` (a relation, since a `map` step runs an arbitrary closure).
pub trait Parser<T> {
    /// The condition under which the parser may be run.
    spec fn wf(&self) -> bool;

    spec fn spec_rest(&self, s: Seq<char>) -> Option<Seq<char>>;

    spec fn spec_value(&self, s: Seq<char>, v: T) -> bool;

    /// Consumption is monotonic: a remainder is always a suffix of the input.
    proof fn lemma_rest_is_suffix(&self, s: Seq<char>)
        ensures
            self.spec_rest(s) is Some ==> is_suffix(self.spec_rest(s)->0, s),
    ;

    fn parse<'a>(&self, s: &'a str) -> (r: Option<(T, &'a str)>)
        requires
            self.wf(),
        ensures
            r is Some <==> self.spec_rest(s@) is Some,
            r matches Some((v, rest)) ==> rest@ == self.spec_rest(s@)->0 && self.spec_value(s@, v),
    ;
}

/// The length of the longest prefix of `s` whose characters all satisfy `f`.
pub open spec fn run_len(s: Seq<char>, f: spec_fn(char) -> bool) -> nat
    decreases s.len(),
{
    if s.len() > 0 && f(s[0]) {
        1 + run_len(s.drop_first(), f)
    } else {
        0
    }
}

/// A run of `i` characters satisfying `f`, ended by the end of input or by a
/// character that does not, is the longest such prefix.
pub proof fn lemma_run_len(s: Seq<char>, f: spec_fn(char) -> bool, i: int)
    requires
        0 <= i <= s.len(),
        forall|j: int| 0 <= j < i ==> f(#[trigger] s[j]),
        i == s.len() || !f(s[i]),
    ensures
        run_len(s, f) == i,
    decreases i,
{
    if i > 0 {
        let t = s.drop_first();
        assert forall|j: int| 0 <= j < i - 1 implies f(#[trigger] t[j]) by {
            assert(t[j] == s[j + 1]);
        }
        if i < s.len() {
            assert(t[i - 1] == s[i]);
        }
        lemma_run_len(t, f, i - 1);
    }
}

pub proof fn lemma_run_len_bound(s: Seq<char>, f: spec_fn(char) -> bool)
    ensures
        run_len(s, f) <= s.len(),
    decreases s.len(),
{
    if s.len() > 0 && f(s[0]) {
        lemma_run_len_bound(s.drop_first(), f);
    }
}

pub open spec fn is_digit(c: char) -> bool {
    '0' <= c <= '9'
}

pub open spec fn digit_value(c: char) -> int {
    c as int - '0' as int
}

/// The number that a string of decimal digits spells.
pub open spec fn decimal_value(ds: Seq<char>) -> int
    decreases ds.len(),
{
    if ds.len() == 0 {
        0
    } else {
        decimal_value(ds.drop_last()) * 10 + digit_value(ds.last())
    }
}

/// How many decimal digits `s` begins with.
pub open spec fn digit_run(s: Seq<char>) -> nat {
    run_len(s, |c: char| is_digit(c))
}

/// The number spelled by the leading digits of `s`.
pub open spec fn digits_value(s: Seq<char>) -> int {
    decimal_value(s.take(digit_run(s) as int))
}

/// `digits` fails with no leading digit or when the number does not fit an
/// `i64`, and otherwise leaves what follows the digits.
pub open spec fn digits_rest(s: Seq<char>) -> Option<Seq<char>> {
    if digit_run(s) == 0 || digits_value(s) > i64::MAX {
        None
    } else {
        Some(s.skip(digit_run(s) as int))
    }
}

proof fn lemma_decimal_value_grows(ds: Seq<char>, k: int)
    requires
        0 <= k <= ds.len(),
        forall|j: int| 0 <= j < ds.len() ==> is_digit(#[trigger] ds[j]),
    ensures
        0 <= decimal_value(ds.take(k)) <= decimal_value(ds),
    decreases ds.len(),
{
    if ds.len() > 0 {
        let d = ds.drop_last();
        lemma_decimal_value_grows(d, 0);
        assert(is_digit(ds[ds.len() - 1]));
        if k < ds.len() {
            lemma_decimal_value_grows(d, k);
            assert(d.take(k) =~= ds.take(k));
        } else {
            assert(ds.take(k) =~= ds);
        }
    } else {
        assert(ds.take(k) =~= ds);
    }
}

fn is_ascii_digit(c: char) -> (r: bool)
    ensures
        r == is_digit(c),
{
    '0' <= c && c <= '9'
}

/// Parses the leading decimal digits of `s` as an `i64` and returns it with
/// what follows them.
pub fn digits(s: &str) -> (r: Option<(i64, &str)>)
    ensures
        r is Some <==> digits_rest(s@) is Some,
        r matches Some((v, rest)) ==> v == digits_value(s@) && rest@ == digits_rest(s@)->0,
{
    let len = s.unicode_len();
    let mut end: usize = 0;
    while end < len && is_ascii_digit(s.get_char(end))
        invariant
            end <= len,
            len == s@.len(),
            forall|j: int| 0 <= j < end ==> is_digit(#[trigger] s@[j]),
        decreases len - end,
    {
        end = end + 1;
    }
    proof {
        lemma_run_len(s@, |c: char| is_digit(c), end as int);
    }
    if end == 0 {
        return None;
    }
    let ghost ds = s@.take(end as int);
    let mut value: i64 = 0;
    let mut i: usize = 0;
    while i < end
        invariant
            i <= end,
            end <= len,
            len == s@.len(),
            ds == s@.take(end as int),
            digit_run(s@) == end,
            forall|j: int| 0 <= j < end ==> is_digit(#[trigger] s@[j]),
            value == decimal_value(s@.take(i as int)),
        decreases end - i,
    {
        let c = s.get_char(i);
        let d = (c as u32 - '0' as u32) as i64;
        proof {
            assert(s@.take(i + 1).drop_last() =~= s@.take(i as int));
            assert(ds.take(i + 1) =~= s@.take(i + 1));
            assert forall|j: int| 0 <= j < ds.len() implies is_digit(#[trigger] ds[j]) by {
                assert(ds[j] == s@[j]);
            }
            lemma_decimal_value_grows(ds, i + 1);
        }
        match value.checked_mul(10) {
            Some(m) => match m.checked_add(d) {
                Some(n) => {
                    value = n;
                },
                None => {
                    return None;
                },
            },
            None => {
                return None;
            },
        }
        i = i + 1;
    }
    let rest = s.substring_char(end, len);
    assert(rest@ =~= s@.skip(end as int));
    Some((value, rest))
}

/// The parser form of [`digits`].
pub struct Digits;

impl Parser<i64> for Digits {
    open spec fn wf(&self) -> bool {
        true
    }

    open spec fn spec_rest(&self, s: Seq<char>) -> Option<Seq<char>> {
        digits_rest(s)
    }

    open spec fn spec_value(&self, s: Seq<char>, v: i64) -> bool {
        v == digits_value(s)
    }

    proof fn lemma_rest_is_suffix(&self, s: Seq<char>) {
        lemma_run_len_bound(s, |c: char| is_digit(c));
        if digits_rest(s) is Some {
            assert(s.skip(digit_run(s) as int) =~= s.subrange(
                s.len() - s.skip(digit_run(s) as int).len(),
                s.len() as int,
            ));
        }
    }

    fn parse<'a>(&self, s: &'a str) -> (r: Option<(i64, &'a str)>) {
        digits(s)
    }
}

/// Matches one given character.
pub struct Character {
    pub c: char,
}

pub open spec fn character_rest(c: char, s: Seq<char>) -> Option<Seq<char>> {
    if s.len() > 0 && s[0] == c {
        Some(s.drop_first())
    } else {
        None
    }
}

impl Parser<()> for Character {
    open spec fn wf(&self) -> bool {
        true
    }

    open spec fn spec_rest(&self, s: Seq<char>) -> Option<Seq<char>> {
        character_rest(self.c, s)
    }

    open spec fn spec_value(&self, s: Seq<char>, v: ()) -> bool {
        true
    }

    proof fn lemma_rest_is_suffix(&self, s: Seq<char>) {
        if s.len() > 0 {
            assert(s.drop_first() =~= s.subrange(1, s.len() as int));
        }
    }

    fn parse<'a>(&self, s: &'a str) -> (r: Option<((), &'a str)>) {
        let n = s.unicode_len();
        if n > 0 && s.get_char(0) == self.c {
            let rest = s.substring_char(1, n);
            assert(rest@ =~= s@.drop_first());
            Some(((), rest))
        } else {
            None
        }
    }
}

/// A parser that succeeds on input whose first character is `c`, consuming it.
pub fn character(c: char) -> (r: Character)
    ensures
        r.c == c,
{
    Character { c }
}

/// Repeats a parser for as long as it succeeds and makes progress.
pub struct Many<P> {
    pub parser: P,
}

/// The inputs on which the repeated parser succeeded, in order. A success that
/// consumes nothing ends the repetition, as a failure does.
pub open spec fn many_inputs<T, P: Parser<T>>(p: P, s: Seq<char>) -> Seq<Seq<char>>
    decreases s.len(),
{
    match p.spec_rest(s) {
        Some(r) => if r.len() < s.len() {
            seq![s] + many_inputs::<T, P>(p, r)
        } else {
            seq![]
        },
        None => seq![],
    }
}

/// Where the repetition stops.
pub open spec fn many_rest<T, P: Parser<T>>(p: P, s: Seq<char>) -> Seq<char>
    decreases s.len(),
{
    match p.spec_rest(s) {
        Some(r) => if r.len() < s.len() {
            many_rest::<T, P>(p, r)
        } else {
            s
        },
        None => s,
    }
}

/// `vs` holds, one for one, values that `p` gives on the inputs `ins`.
pub open spec fn values_of<T, P: Parser<T>>(p: P, ins: Seq<Seq<char>>, vs: Seq<T>) -> bool {
    &&& vs.len() == ins.len()
    &&& forall|i: int| 0 <= i < ins.len() ==> #[trigger] p.spec_value(ins[i], vs[i])
}

pub proof fn lemma_many_rest_is_suffix<T, P: Parser<T>>(p: P, s: Seq<char>)
    ensures
        is_suffix(many_rest::<T, P>(p, s), s),
    decreases s.len(),
{
    p.lemma_rest_is_suffix(s);
    match p.spec_rest(s) {
        Some(r) => if r.len() < s.len() {
            lemma_many_rest_is_suffix::<T, P>(p, r);
            lemma_suffix_trans(many_rest::<T, P>(p, r), r, s);
        } else {
            assert(s =~= s.subrange(0, s.len() as int));
        },
        None => {
            assert(s =~= s.subrange(0, s.len() as int));
        },
    }
}

impl<T, P: Parser<T>> Parser<Vec<T>> for Many<P> {
    open spec fn wf(&self) -> bool {
        self.parser.wf()
    }

    open spec fn spec_rest(&self, s: Seq<char>) -> Option<Seq<char>> {
        Some(many_rest::<T, P>(self.parser, s))
    }

    open spec fn spec_value(&self, s: Seq<char>, v: Vec<T>) -> bool {
        values_of::<T, P>(self.parser, many_inputs::<T, P>(self.parser, s), v@)
    }

    proof fn lemma_rest_is_suffix(&self, s: Seq<char>) {
        lemma_many_rest_is_suffix::<T, P>(self.parser, s);
    }

    fn parse<'a>(&self, s: &'a str) -> (r: Option<(Vec<T>, &'a str)>) {
        let mut ret: Vec<T> = Vec::new();
        let mut cur: &'a str = s;
        let mut cur_len: usize = s.unicode_len();
        let ghost mut done: Seq<Seq<char>> = seq![];
        loop
            invariant
                self.wf(),
                cur_len == cur@.len(),
                many_inputs::<T, P>(self.parser, s@) == done + many_inputs::<T, P>(
                    self.parser,
                    cur@,
                ),
                many_rest::<T, P>(self.parser, s@) == many_rest::<T, P>(self.parser, cur@),
                values_of::<T, P>(self.parser, done, ret@),
            decreases cur_len,
        {
            match self.parser.parse(cur) {
                Some((v, rest)) => {
                    let rest_len = rest.unicode_len();
                    proof {
                        self.parser.lemma_rest_is_suffix(cur@);
                    }
                    if rest_len < cur_len {
                        proof {
                            assert(done + many_inputs::<T, P>(self.parser, cur@) =~= done.push(
                                cur@,
                            ) + many_inputs::<T, P>(self.parser, rest@));
                            done = done.push(cur@);
                        }
                        ret.push(v);
                        cur = rest;
                        cur_len = rest_len;
                    } else {
                        proof {
                            assert(done + many_inputs::<T, P>(self.parser, cur@) =~= done);
                        }
                        return Some((ret, cur));
                    }
                },
                None => {
                    assert(done + many_inputs::<T, P>(self.parser, cur@) =~= done);
                    return Some((ret, cur));
                },
            }
        }
    }
}

/// Repeats `parser` from the start of the input, collecting its values in
/// order; never fails.
pub fn many<T, P: Parser<T>>(parser: P) -> (r: Many<P>)
    ensures
        r.parser == parser,
{
    Many { parser }
}

/// Items of one parser separated by another; a separator with no item after
/// it fails the whole parse.
pub struct Separated<P, S> {
    pub parser: P,
    pub separator: S,
}

/// Puts `done` in front of the inputs of a run, failure staying failure.
pub open spec fn prepend_inputs(
    done: Seq<Seq<char>>,
    res: Option<(Seq<Seq<char>>, Seq<char>)>,
) -> Option<(Seq<Seq<char>>, Seq<char>)> {
    match res {
        Some((ins, rest)) => Some((done + ins, rest)),
        None => None,
    }
}

/// The run after an item: each round is a separator and then an item. `None` is
/// a separator with no item after it; otherwise the inputs of the items parsed
/// and the remainder. A round that consumes nothing ends the run.
pub open spec fn separated_tail<T, P: Parser<T>, S: Parser<()>>(
    p: P,
    sep: S,
    s: Seq<char>,
) -> Option<(Seq<Seq<char>>, Seq<char>)>
    decreases s.len(),
{
    match sep.spec_rest(s) {
        None => Some((seq![], s)),
        Some(r1) => match p.spec_rest(r1) {
            None => None,
            Some(r2) => if r2.len() < s.len() {
                prepend_inputs(seq![r1], separated_tail::<T, P, S>(p, sep, r2))
            } else {
                Some((seq![], s))
            },
        },
    }
}

/// The whole run: an empty result when the first item fails.
pub open spec fn separated_run<T, P: Parser<T>, S: Parser<()>>(
    p: P,
    sep: S,
    s: Seq<char>,
) -> Option<(Seq<Seq<char>>, Seq<char>)> {
    match p.spec_rest(s) {
        None => Some((seq![], s)),
        Some(r) => prepend_inputs(seq![s], separated_tail::<T, P, S>(p, sep, r)),
    }
}

proof fn lemma_prepend_push(done: Seq<Seq<char>>, x: Seq<char>, res: Option<(Seq<Seq<char>>, Seq<char>)>)
    ensures
        prepend_inputs(done, prepend_inputs(seq![x], res)) == prepend_inputs(done.push(x), res),
{
    if let Some((ins, rest)) = res {
        assert(done + (seq![x] + ins) =~= done.push(x) + ins);
    }
}

pub proof fn lemma_separated_tail_is_suffix<T, P: Parser<T>, S: Parser<()>>(
    p: P,
    sep: S,
    s: Seq<char>,
)
    ensures
        separated_tail::<T, P, S>(p, sep, s) matches Some((_, rest)) ==> is_suffix(rest, s),
    decreases s.len(),
{
    assert(s =~= s.subrange(0, s.len() as int));
    sep.lemma_rest_is_suffix(s);
    if let Some(r1) = sep.spec_rest(s) {
        p.lemma_rest_is_suffix(r1);
        if let Some(r2) = p.spec_rest(r1) {
            if r2.len() < s.len() {
                lemma_separated_tail_is_suffix::<T, P, S>(p, sep, r2);
                lemma_suffix_trans(r2, r1, s);
                if let Some((_, rest)) = separated_tail::<T, P, S>(p, sep, r2) {
                    lemma_suffix_trans(rest, r2, s);
                }
            }
        }
    }
}

impl<T, P: Parser<T>, S: Parser<()>> Parser<Vec<T>> for Separated<P, S> {
    open spec fn wf(&self) -> bool {
        self.parser.wf() && self.separator.wf()
    }

    open spec fn spec_rest(&self, s: Seq<char>) -> Option<Seq<char>> {
        match separated_run::<T, P, S>(self.parser, self.separator, s) {
            Some((_, rest)) => Some(rest),
            None => None,
        }
    }

    open spec fn spec_value(&self, s: Seq<char>, v: Vec<T>) -> bool {
        match separated_run::<T, P, S>(self.parser, self.separator, s) {
            Some((ins, _)) => values_of::<T, P>(self.parser, ins, v@),
            None => false,
        }
    }

    proof fn lemma_rest_is_suffix(&self, s: Seq<char>) {
        assert(s =~= s.subrange(0, s.len() as int));
        self.parser.lemma_rest_is_suffix(s);
        if let Some(r) = self.parser.spec_rest(s) {
            lemma_separated_tail_is_suffix::<T, P, S>(self.parser, self.separator, r);
            if let Some((_, rest)) = separated_tail::<T, P, S>(self.parser, self.separator, r) {
                lemma_suffix_trans(rest, r, s);
            }
        }
    }

    fn parse<'a>(&self, s: &'a str) -> (r: Option<(Vec<T>, &'a str)>) {
        let mut ret: Vec<T> = Vec::new();
        let mut cur: &'a str;
        match self.parser.parse(s) {
            Some((v, rest)) => {
                ret.push(v);
                cur = rest;
            },
            None => {
                return Some((ret, s));
            },
        }
        let mut cur_len: usize = cur.unicode_len();
        let ghost mut done: Seq<Seq<char>> = seq![s@];
        loop
            invariant
                self.wf(),
                cur_len == cur@.len(),
                separated_run::<T, P, S>(self.parser, self.separator, s@) == prepend_inputs(
                    done,
                    separated_tail::<T, P, S>(self.parser, self.separator, cur@),
                ),
                values_of::<T, P>(self.parser, done, ret@),
            decreases cur_len,
        {
            match self.separator.parse(cur) {
                None => {
                    assert(done + seq![] =~= done);
                    return Some((ret, cur));
                },
                Some((_, r1)) => match self.parser.parse(r1) {
                    None => {
                        return None;
                    },
                    Some((v, r2)) => {
                        let r2_len = r2.unicode_len();
                        proof {
                            self.separator.lemma_rest_is_suffix(cur@);
                            self.parser.lemma_rest_is_suffix(r1@);
                        }
                        if r2_len < cur_len {
                            proof {
                                lemma_prepend_push(
                                    done,
                                    r1@,
                                    separated_tail::<T, P, S>(self.parser, self.separator, r2@),
                                );
                                done = done.push(r1@);
                            }
                            ret.push(v);
                            cur = r2;
                            cur_len = r2_len;
                        } else {
                            assert(done + seq![] =~= done);
                            return Some((ret, cur));
                        }
                    },
                },
            }
        }
    }
}

/// Zero or more items of `parser` separated by `separator`: the result is empty
/// only when the first item fails, and a separator not followed by an item
/// fails the whole parse.
pub fn separated<T, P: Parser<T>, S: Parser<()>>(parser: P, separator: S) -> (r: Separated<P, S>)
    ensures
        r.parser == parser,
        r.separator == separator,
{
    Separated { parser, separator }
}

/// Matches a fixed piece of text.
pub struct Literal {
    pub target: &'static str,
}

pub open spec fn literal_rest(target: Seq<char>, s: Seq<char>) -> Option<Seq<char>> {
    if target.is_prefix_of(s) {
        Some(s.skip(target.len() as int))
    } else {
        None
    }
}

impl Parser<()> for Literal {
    open spec fn wf(&self) -> bool {
        true
    }

    open spec fn spec_rest(&self, s: Seq<char>) -> Option<Seq<char>> {
        literal_rest(self.target@, s)
    }

    open spec fn spec_value(&self, s: Seq<char>, v: ()) -> bool {
        true
    }

    proof fn lemma_rest_is_suffix(&self, s: Seq<char>) {
        if self.target@.is_prefix_of(s) {
            assert(s.skip(self.target@.len() as int) =~= s.subrange(
                self.target@.len() as int,
                s.len() as int,
            ));
        }
    }

    fn parse<'a>(&self, s: &'a str) -> (r: Option<((), &'a str)>) {
        let n = self.target.unicode_len();
        let len = s.unicode_len();
        if n > len {
            return None;
        }
        let mut i: usize = 0;
        while i < n
            invariant
                i <= n <= len,
                n == self.target@.len(),
                len == s@.len(),
                forall|j: int| 0 <= j < i ==> self.target@[j] == s@[j],
            decreases n - i,
        {
            if self.target.get_char(i) != s.get_char(i) {
                return None;
            }
            i = i + 1;
        }
        assert(self.target@ =~= s@.subrange(0, n as int));
        let rest = s.substring_char(n, len);
        assert(rest@ =~= s@.skip(n as int));
        Some(((), rest))
    }
}

/// A parser that succeeds on input starting with `target`, consuming exactly
/// that text.
pub fn string(target: &'static str) -> (r: Literal)
    ensures
        r.target == target,
{
    Literal { target }
}

/// The characters that `char::is_whitespace` accepts: Unicode `White_Space`.
pub open spec fn is_ws(c: char) -> bool {
    ||| '\u{9}' <= c <= '\u{d}'
    ||| c == ' '
    ||| c == '\u{85}'
    ||| c == '\u{a0}'
    ||| c == '\u{1680}'
    ||| '\u{2000}' <= c <= '\u{200a}'
    ||| c == '\u{2028}'
    ||| c == '\u{2029}'
    ||| c == '\u{202f}'
    ||| c == '\u{205f}'
    ||| c == '\u{3000}'
}

/// Whether `c` is a whitespace character.
pub fn is_whitespace(c: char) -> (r: bool)
    ensures
        r == is_ws(c),
{
    ('\u{9}' <= c && c <= '\u{d}') || c == ' ' || c == '\u{85}' || c == '\u{a0}' || c
        == '\u{1680}' || ('\u{2000}' <= c && c <= '\u{200a}') || c == '\u{2028}' || c
        == '\u{2029}' || c == '\u{202f}' || c == '\u{205f}' || c == '\u{3000}'
}

/// `s` without its leading whitespace.
pub open spec fn trim_ws(s: Seq<char>) -> Seq<char> {
    s.skip(run_len(s, |c: char| is_ws(c)) as int)
}

/// Skips leading whitespace, then runs the inner parser.
pub struct Lexeme<P> {
    pub parser: P,
}

impl<T, P: Parser<T>> Parser<T> for Lexeme<P> {
    open spec fn wf(&self) -> bool {
        self.parser.wf()
    }

    open spec fn spec_rest(&self, s: Seq<char>) -> Option<Seq<char>> {
        self.parser.spec_rest(trim_ws(s))
    }

    open spec fn spec_value(&self, s: Seq<char>, v: T) -> bool {
        self.parser.spec_value(trim_ws(s), v)
    }

    proof fn lemma_rest_is_suffix(&self, s: Seq<char>) {
        lemma_run_len_bound(s, |c: char| is_ws(c));
        let t = trim_ws(s);
        assert(t =~= s.subrange(s.len() - t.len(), s.len() as int));
        self.parser.lemma_rest_is_suffix(t);
        if let Some(r) = self.parser.spec_rest(t) {
            lemma_suffix_trans(r, t, s);
        }
    }

    fn parse<'a>(&self, s: &'a str) -> (r: Option<(T, &'a str)>) {
        let len = s.unicode_len();
        let mut i: usize = 0;
        while i < len && is_whitespace(s.get_char(i))
            invariant
                i <= len,
                len == s@.len(),
                forall|j: int| 0 <= j < i ==> is_ws(#[trigger] s@[j]),
            decreases len - i,
        {
            i = i + 1;
        }
        proof {
            lemma_run_len(s@, |c: char| is_ws(c), i as int);
        }
        let trimmed = s.substring_char(i, len);
        assert(trimmed@ =~= trim_ws(s@));
        self.parser.parse(trimmed)
    }
}

/// Wraps `parser` so that it first skips leading whitespace; trailing
/// whitespace is left in the remainder.
pub fn lexeme<T, P: Parser<T>>(parser: P) -> (r: Lexeme<P>)
    ensures
        r.parser == parser,
{
    Lexeme { parser }
}

/// Applies a function to the value of the inner parser.
pub struct Mapped<P, F, A> {
    pub parser: P,
    pub f: F,
    pub input: std::marker::PhantomData<A>,
}

impl<A, B, P: Parser<A>, F: Fn(A) -> B> Parser<B> for Mapped<P, F, A> {
    open spec fn wf(&self) -> bool {
        &&& self.parser.wf()
        &&& forall|a: A| #[trigger] self.f.requires((a,))
    }

    open spec fn spec_rest(&self, s: Seq<char>) -> Option<Seq<char>> {
        self.parser.spec_rest(s)
    }

    open spec fn spec_value(&self, s: Seq<char>, v: B) -> bool {
        exists|a: A| self.parser.spec_value(s, a) && #[trigger] self.f.ensures((a,), v)
    }

    proof fn lemma_rest_is_suffix(&self, s: Seq<char>) {
        self.parser.lemma_rest_is_suffix(s);
    }

    fn parse<'a>(&self, s: &'a str) -> (r: Option<(B, &'a str)>) {
        match self.parser.parse(s) {
            Some((a, rest)) => {
                let ghost ga = a;
                let b = (self.f)(a);
                assert(self.parser.spec_value(s@, ga) && self.f.ensures((ga,), b));
                Some((b, rest))
            },
            None => None,
        }
    }
}

/// Runs `parser` and applies `f` to its value, keeping its remainder.
pub fn map<A, B, P: Parser<A>, F: Fn(A) -> B>(parser: P, f: F) -> (r: Mapped<P, F, A>)
    ensures
        r.parser == parser,
        r.f == f,
{
    Mapped { parser, f, input: std::marker::PhantomData }
}

/// Ordered choice: the first parser's result when it succeeds, else the
/// second's on the same input.
pub struct Choice<P1, P2> {
    pub first: P1,
    pub second: P2,
}

impl<T, P1: Parser<T>, P2: Parser<T>> Parser<T> for Choice<P1, P2> {
    open spec fn wf(&self) -> bool {
        self.first.wf() && self.second.wf()
    }

    open spec fn spec_rest(&self, s: Seq<char>) -> Option<Seq<char>> {
        if self.first.spec_rest(s) is Some {
            self.first.spec_rest(s)
        } else {
            self.second.spec_rest(s)
        }
    }

    open spec fn spec_value(&self, s: Seq<char>, v: T) -> bool {
        if self.first.spec_rest(s) is Some {
            self.first.spec_value(s, v)
        } else {
            self.second.spec_value(s, v)
        }
    }

    proof fn lemma_rest_is_suffix(&self, s: Seq<char>) {
        self.first.lemma_rest_is_suffix(s);
        self.second.lemma_rest_is_suffix(s);
    }

    fn parse<'a>(&self, s: &'a str) -> (r: Option<(T, &'a str)>) {
        match self.first.parse(s) {
            Some(res) => Some(res),
            None => self.second.parse(s),
        }
    }
}

/// Tries `parser1`, and `parser2` on the original input where it fails.
pub fn choice<T, P1: Parser<T>, P2: Parser<T>>(parser1: P1, parser2: P2) -> (r: Choice<P1, P2>)
    ensures
        r.first == parser1,
        r.second == parser2,
{
    Choice { first: parser1, second: parser2 }
}

/// Sequencing: the second parser runs on the first one's remainder.
pub struct Join<P1, P2> {
    pub first: P1,
    pub second: P2,
}

impl<A, B, P1: Parser<A>, P2: Parser<B>> Parser<(A, B)> for Join<P1, P2> {
    open spec fn wf(&self) -> bool {
        self.first.wf() && self.second.wf()
    }

    open spec fn spec_rest(&self, s: Seq<char>) -> Option<Seq<char>> {
        match self.first.spec_rest(s) {
            Some(r1) => self.second.spec_rest(r1),
            None => None,
        }
    }

    open spec fn spec_value(&self, s: Seq<char>, v: (A, B)) -> bool {
        match self.first.spec_rest(s) {
            Some(r1) => self.first.spec_value(s, v.0) && self.second.spec_value(r1, v.1),
            None => false,
        }
    }

    proof fn lemma_rest_is_suffix(&self, s: Seq<char>) {
        self.first.lemma_rest_is_suffix(s);
        if let Some(r1) = self.first.spec_rest(s) {
            self.second.lemma_rest_is_suffix(r1);
            if let Some(r2) = self.second.spec_rest(r1) {
                lemma_suffix_trans(r2, r1, s);
            }
        }
    }

    fn parse<'a>(&self, s: &'a str) -> (r: Option<((A, B), &'a str)>) {
        match self.first.parse(s) {
            Some((a, r1)) => match self.second.parse(r1) {
                Some((b, r2)) => Some(((a, b), r2)),
                None => None,
            },
            None => None,
        }
    }
}

/// Runs `parser1`, then `parser2` on its remainder, pairing their values; fails
/// when either fails, with no backtracking into `parser1`.
pub fn join<A, B, P1: Parser<A>, P2: Parser<B>>(parser1: P1, parser2: P2) -> (r: Join<P1, P2>)
    ensures
        r.first == parser1,
        r.second == parser2,
{
    Join { first: parser1, second: parser2 }
}

} // verus!
