//! Parsers over borrowed text, and the combinators that build parsers from
//! parsers.
//!
//! A parser takes a string slice and hands back either the remainder of the
//! input together with a value, or the input at which it gave up. Nothing is
//! copied: every remainder borrows from the input.
//!
//! In contracts a parser is a pair of relations over texts: `accepts` holds
//! of the inputs, remainders and values of its successes, `rejects` of the
//! inputs and positions of its failures.
use crate::text::{
    alphabetic, ident_at, lemma_rest_is_suffix, lemma_suffix_refl, lemma_suffix_trans, split_first,
    split_ident, strip_prefix,
};
use core::marker::PhantomData;
use vstd::prelude::*;

verus! {

/// What a parser returns: the remainder and the value, or the input at the
/// point of failure.
pub type ParseResult<'a, Output> = Result<(&'a str, Output), &'a str>;

/// Something that parses a value of type `Output` off the front of a text.
pub trait Parser<'a, Output> {
    /// Whether this parser is fit to run.
    spec fn wf(&self) -> bool;

    /// Whether the parser, given `input`, may succeed with `value` and leave
    /// `rest`.
    spec fn accepts(&self, input: Seq<char>, rest: Seq<char>, value: Output) -> bool;

    /// Whether the parser, given `input`, may fail, and report `at` as the
    /// place of the failure.
    spec fn rejects(&self, input: Seq<char>, at: Seq<char>) -> bool;

    /// Runs the parser on `input`.
    fn parse(&self, input: &'a str) -> (r: ParseResult<'a, Output>)
        requires
            self.wf(),
        ensures
            match r {
                Ok((rest, value)) => self.accepts(input@, rest@, value) && rest@.is_suffix_of(
                    input@,
                ),
                Err(at) => self.rejects(input@, at@) && at@.is_suffix_of(input@),
            },
    ;

    /// The remainder of a success is a suffix of the input.
    proof fn lemma_accepts_suffix(&self, input: Seq<char>, rest: Seq<char>, value: Output)
        requires
            self.wf(),
        ensures
            self.accepts(input, rest, value) ==> rest.is_suffix_of(input),
    ;

    /// The place of a failure is a suffix of the input.
    proof fn lemma_rejects_suffix(&self, input: Seq<char>, at: Seq<char>)
        requires
            self.wf(),
        ensures
            self.rejects(input, at) ==> at.is_suffix_of(input),
    ;
}

/// Any function from a string slice to a parse result is a parser.
impl<'a, F, Output> Parser<'a, Output> for F where F: Fn(&'a str) -> ParseResult<'a, Output> {
    /// The function takes every input, and what it hands back lies at the
    /// end of what it was given.
    open spec fn wf(&self) -> bool {
        &&& forall|i: &'a str| call_requires(*self, (i,))
        &&& forall|i: &'a str, r: &'a str, v: Output| #[trigger]
            call_ensures(*self, (i,), Ok((r, v))) ==> r@.is_suffix_of(i@)
        &&& forall|i: &'a str, a: &'a str| #[trigger]
            call_ensures(*self, (i,), Err::<(&'a str, Output), &'a str>(a)) ==> a@.is_suffix_of(i@)
    }

    open spec fn accepts(&self, input: Seq<char>, rest: Seq<char>, value: Output) -> bool {
        exists|i: &'a str, r: &'a str|
            i@ == input && r@ == rest && #[trigger] call_ensures(*self, (i,), Ok((r, value)))
    }

    open spec fn rejects(&self, input: Seq<char>, at: Seq<char>) -> bool {
        exists|i: &'a str, a: &'a str|
            i@ == input && a@ == at && #[trigger] call_ensures(
                *self,
                (i,),
                Err::<(&'a str, Output), &'a str>(a),
            )
    }

    fn parse(&self, input: &'a str) -> (r: ParseResult<'a, Output>) {
        self(input)
    }

    proof fn lemma_accepts_suffix(&self, input: Seq<char>, rest: Seq<char>, value: Output) {
    }

    proof fn lemma_rejects_suffix(&self, input: Seq<char>, at: Seq<char>) {
    }
}

/// Matches the single character `c` at the front of `input`.
///
/// Succeeds when the first character of `input` is `c`, and leaves what
/// follows that character. Fails on any other input, the empty one too,
/// and reports the input unchanged.
pub fn match_letter(c: char, input: &str) -> (r: ParseResult<'_, ()>)
    ensures
        match r {
            Ok((rest, _)) => input@.len() > 0 && input@[0] == c && rest@ == input@.drop_first(),
            Err(at) => at@ == input@ && (input@.len() == 0 || input@[0] != c),
        },
{
    match split_first(input) {
        Some((letter, rest)) => {
            if letter == c {
                Ok((rest, ()))
            } else {
                Err(input)
            }
        },
        None => Err(input),
    }
}

/// The parser that matches one fixed text.
pub struct Literal<'a> {
    pub expected: &'a str,
}

impl<'a> Parser<'a, &'a str> for Literal<'a> {
    open spec fn wf(&self) -> bool {
        true
    }

    /// The input begins with the expected text, which is also the value.
    open spec fn accepts(&self, input: Seq<char>, rest: Seq<char>, value: &'a str) -> bool {
        input == self.expected@ + rest && value@ == self.expected@
    }

    /// The input does not begin with the expected text; nothing is consumed.
    open spec fn rejects(&self, input: Seq<char>, at: Seq<char>) -> bool {
        at == input && !self.expected@.is_prefix_of(input)
    }

    fn parse(&self, input: &'a str) -> (r: ParseResult<'a, &'a str>) {
        match strip_prefix(input, self.expected) {
            Some(rest) => Ok((rest, self.expected)),
            None => Err(input),
        }
    }

    proof fn lemma_accepts_suffix(&self, input: Seq<char>, rest: Seq<char>, value: &'a str) {
        lemma_rest_is_suffix(self.expected@, rest);
    }

    proof fn lemma_rejects_suffix(&self, input: Seq<char>, at: Seq<char>) {
        lemma_suffix_refl(input);
    }
}

/// Makes the parser that matches the text `expected`.
///
/// It succeeds on the inputs that begin with `expected`, with `expected` as
/// the value and what follows it as the remainder. The comparison is exact,
/// character for character.
pub fn match_literal<'a>(expected: &'a str) -> (r: Literal<'a>)
    ensures
        r.expected == expected,
        r.wf(),
        forall|input: Seq<char>, rest: Seq<char>, value: &'a str| #[trigger]
            r.accepts(input, rest, value) <==> input == expected@ + rest && value@ == expected@,
        forall|input: Seq<char>, at: Seq<char>| #[trigger]
            r.rejects(input, at) <==> at == input && !expected@.is_prefix_of(input),
{
    Literal { expected }
}

/// Matches an identifier at the front of `input`.
///
/// An identifier is a letter followed by letters and hyphens. The parser
/// takes as many of them as there are, hands back the identifier as a
/// `String`, and leaves the rest. It fails, reporting the input unchanged,
/// when `input` does not begin with a letter.
pub fn match_ident(input: &str) -> (r: ParseResult<'_, String>)
    ensures
        match r {
            Ok((rest, name)) => input@ == name@ + rest@ && ident_at(input@, name@.len() as int),
            Err(at) => at@ == input@ && (input@.len() == 0 || !alphabetic(input@[0])),
        },
{
    match split_ident(input) {
        Some((name, rest)) => Ok((rest, name.to_owned())),
        None => Err(input),
    }
}

/// Two parsers in sequence.
pub struct Pair<PA, PB> {
    pub first: PA,
    pub second: PB,
}

impl<'a, PA, PB, A, B> Parser<'a, (A, B)> for Pair<PA, PB> where
    PA: Parser<'a, A>,
    PB: Parser<'a, B>,
 {
    open spec fn wf(&self) -> bool {
        self.first.wf() && self.second.wf()
    }

    /// The first parser succeeds on the input, the second on what the first
    /// left; the value holds both values, in that order.
    open spec fn accepts(&self, input: Seq<char>, rest: Seq<char>, value: (A, B)) -> bool {
        exists|mid: Seq<char>| #[trigger]
            self.first.accepts(input, mid, value.0) && self.second.accepts(mid, rest, value.1)
    }

    /// Either the first parser fails on the input, or it succeeds and the
    /// second fails on what the first left. The place of the failure is the
    /// one that the failing parser reports.
    open spec fn rejects(&self, input: Seq<char>, at: Seq<char>) -> bool {
        self.first.rejects(input, at) || exists|mid: Seq<char>, v: A| #[trigger]
            self.first.accepts(input, mid, v) && self.second.rejects(mid, at)
    }

    fn parse(&self, input: &'a str) -> (r: ParseResult<'a, (A, B)>) {
        match self.first.parse(input) {
            Ok((mid, v1)) => match self.second.parse(mid) {
                Ok((rest, v2)) => {
                    let value = (v1, v2);
                    proof {
                        assert(self.first.accepts(input@, mid@, value.0));
                    }
                    Ok((rest, value))
                },
                Err(at) => Err(at),
            },
            Err(at) => Err(at),
        }
    }

    proof fn lemma_accepts_suffix(&self, input: Seq<char>, rest: Seq<char>, value: (A, B)) {
        if self.accepts(input, rest, value) {
            let mid = choose|mid: Seq<char>| #[trigger]
                self.first.accepts(input, mid, value.0) && self.second.accepts(mid, rest, value.1);
            self.first.lemma_accepts_suffix(input, mid, value.0);
            self.second.lemma_accepts_suffix(mid, rest, value.1);
            lemma_suffix_trans(rest, mid, input);
        }
    }

    proof fn lemma_rejects_suffix(&self, input: Seq<char>, at: Seq<char>) {
        if self.first.rejects(input, at) {
            self.first.lemma_rejects_suffix(input, at);
        } else if self.rejects(input, at) {
            let (mid, v) = choose|mid: Seq<char>, v: A| #[trigger]
                self.first.accepts(input, mid, v) && self.second.rejects(mid, at);
            self.first.lemma_accepts_suffix(input, mid, v);
            self.second.lemma_rejects_suffix(mid, at);
            lemma_suffix_trans(at, mid, input);
        }
    }
}

/// Makes the parser that runs `first` and then, on what `first` left,
/// `second`.
///
/// When `first` fails, the pair fails as `first` did and `second` is not
/// tried. When `second` fails, the pair fails at the place that `second`
/// reports: what `first` consumed is not given back. When both succeed, the
/// value is the pair of their values and the remainder is the one that
/// `second` left.
pub fn pair<'a, PA, PB, A, B>(first: PA, second: PB) -> (r: Pair<PA, PB>) where
    PA: Parser<'a, A>,
    PB: Parser<'a, B>,

    ensures
        r.first == first,
        r.second == second,
        Parser::<'a, (A, B)>::wf(&r) <==> first.wf() && second.wf(),
        forall|input: Seq<char>, rest: Seq<char>, value: (A, B)| #[trigger]
            r.accepts(input, rest, value) <==> exists|mid: Seq<char>| #[trigger]
                first.accepts(input, mid, value.0) && second.accepts(mid, rest, value.1),
        forall|input: Seq<char>, at: Seq<char>| #[trigger]
            Parser::<'a, (A, B)>::rejects(&r, input, at) <==> first.rejects(input, at) || exists|
                mid: Seq<char>,
                v: A,
            | #[trigger]
                first.accepts(input, mid, v) && second.rejects(mid, at),
{
    Pair { first, second }
}

/// A parser whose value is passed through a function.
pub struct Mapped<P, F, A> {
    pub parser: P,
    pub map_fn: F,
    pub from: PhantomData<A>,
}

impl<'a, P, F, A, B> Parser<'a, B> for Mapped<P, F, A> where P: Parser<'a, A>, F: Fn(A) -> B {
    /// The function takes every value.
    open spec fn wf(&self) -> bool {
        self.parser.wf() && forall|a: A| call_requires(self.map_fn, (a,))
    }

    /// The inner parser succeeds with some value, and the function turns
    /// that value into this one; the remainder is the inner parser's.
    open spec fn accepts(&self, input: Seq<char>, rest: Seq<char>, value: B) -> bool {
        exists|a: A| #[trigger]
            self.parser.accepts(input, rest, a) && call_ensures(self.map_fn, (a,), value)
    }

    /// The inner parser fails, at the same place.
    open spec fn rejects(&self, input: Seq<char>, at: Seq<char>) -> bool {
        self.parser.rejects(input, at)
    }

    fn parse(&self, input: &'a str) -> (r: ParseResult<'a, B>) {
        match self.parser.parse(input) {
            Ok((rest, a)) => Ok((rest, (self.map_fn)(a))),
            Err(at) => Err(at),
        }
    }

    proof fn lemma_accepts_suffix(&self, input: Seq<char>, rest: Seq<char>, value: B) {
        if self.accepts(input, rest, value) {
            let a = choose|a: A| #[trigger]
                self.parser.accepts(input, rest, a) && call_ensures(self.map_fn, (a,), value);
            self.parser.lemma_accepts_suffix(input, rest, a);
        }
    }

    proof fn lemma_rejects_suffix(&self, input: Seq<char>, at: Seq<char>) {
        self.parser.lemma_rejects_suffix(input, at);
    }
}

/// Makes the parser that runs `parser` and applies `map_fn` to its value.
///
/// A failure of `parser` is passed on unchanged, and `map_fn` is not
/// called. On success only the value changes; the remainder stays.
pub fn map<'a, P, F, A, B>(parser: P, map_fn: F) -> (r: Mapped<P, F, A>) where
    P: Parser<'a, A>,
    F: Fn(A) -> B,

    ensures
        r.parser == parser,
        r.map_fn == map_fn,
        Parser::<'a, B>::wf(&r) <==> parser.wf() && forall|a: A| call_requires(map_fn, (a,)),
        forall|input: Seq<char>, rest: Seq<char>, value: B| #[trigger]
            r.accepts(input, rest, value) <==> exists|a: A| #[trigger]
                parser.accepts(input, rest, a) && call_ensures(map_fn, (a,), value),
        forall|input: Seq<char>, at: Seq<char>| #[trigger]
            Parser::<'a, B>::rejects(&r, input, at) <==> parser.rejects(input, at),
{
    Mapped { parser, map_fn, from: PhantomData }
}

/// Whether every success of `p` consumes at least one character.
pub open spec fn makes_progress<'a, A, P: Parser<'a, A>>(p: P) -> bool {
    forall|input: Seq<char>, rest: Seq<char>, value: A| #[trigger]
        p.accepts(input, rest, value) ==> rest.len() < input.len()
}

/// Whether `p` may fail on `input`.
pub open spec fn fails_on<'a, A, P: Parser<'a, A>>(p: P, input: Seq<char>) -> bool {
    exists|at: Seq<char>| p.rejects(input, at)
}

/// Whether `items` are the values of successive runs of `p`: the first run
/// starts at `stops[0]`, run `i` goes from `stops[i]` to `stops[i + 1]`.
pub open spec fn runs<'a, A, P: Parser<'a, A>>(
    p: P,
    stops: Seq<Seq<char>>,
    items: Seq<A>,
) -> bool {
    &&& stops.len() == items.len() + 1
    &&& forall|i: int|
        0 <= i < items.len() ==> p.accepts(stops[i], stops[i + 1], #[trigger] items[i])
}

/// Whether `p`, run again and again from `input`, each time on what the
/// last run left, may yield `items` and end at `rest`.
pub open spec fn repeats<'a, A, P: Parser<'a, A>>(
    p: P,
    input: Seq<char>,
    rest: Seq<char>,
    items: Seq<A>,
) -> bool {
    exists|stops: Seq<Seq<char>>| #[trigger]
        runs(p, stops, items) && stops[0] == input && stops.last() == rest
}

/// Every place that successive runs of a parser stop at is a suffix of the
/// place they started from.
pub proof fn lemma_runs_suffix<'a, A, P: Parser<'a, A>>(
    p: P,
    stops: Seq<Seq<char>>,
    items: Seq<A>,
    i: int,
)
    requires
        p.wf(),
        runs(p, stops, items),
        0 <= i <= items.len(),
    ensures
        stops[i].is_suffix_of(stops[0]),
    decreases i,
{
    if i > 0 {
        lemma_runs_suffix(p, stops, items, i - 1);
        p.lemma_accepts_suffix(stops[i - 1], stops[i], items[i - 1]);
    }
}

/// One more run lengthens a chain of runs.
pub proof fn lemma_runs_push<'a, A, P: Parser<'a, A>>(
    p: P,
    stops: Seq<Seq<char>>,
    items: Seq<A>,
    rest: Seq<char>,
    value: A,
)
    requires
        runs(p, stops, items),
        p.accepts(stops.last(), rest, value),
    ensures
        runs(p, stops.push(rest), items.push(value)),
{
}

/// Goes on running `parser` from `start` until it fails, and adds the
/// values to `items`. Returns the place of that failure, from which nothing
/// was consumed. `origin` is the text at which the repetition began.
fn parse_rest<'a, A, P: Parser<'a, A>>(
    parser: &P,
    start: &'a str,
    items: &mut Vec<A>,
    Ghost(origin): Ghost<Seq<char>>,
) -> (end: &'a str)
    requires
        parser.wf(),
        makes_progress::<A, P>(*parser),
        repeats(*parser, origin, start@, old(items)@),
        start@.is_suffix_of(origin),
    ensures
        repeats(*parser, origin, end@, final(items)@),
        fails_on(*parser, end@),
        end@.is_suffix_of(origin),
        old(items)@.is_prefix_of(final(items)@),
{
    let mut to_parse = start;
    let ghost mut stops: Seq<Seq<char>> = choose|stops: Seq<Seq<char>>| #[trigger]
        runs(*parser, stops, items@) && stops[0] == origin && stops.last() == start@;
    loop
        invariant
            parser.wf(),
            makes_progress::<A, P>(*parser),
            runs(*parser, stops, items@),
            stops[0] == origin,
            stops.last() == to_parse@,
            to_parse@.is_suffix_of(origin),
            old(items)@.is_prefix_of(items@),
        ensures
            fails_on(*parser, to_parse@),
        decreases to_parse@.len(),
    {
        match parser.parse(to_parse) {
            Ok((rest, parsed)) => {
                proof {
                    stops = stops.push(rest@);
                }
                items.push(parsed);
                to_parse = rest;
            },
            Err(_) => {
                break ;
            },
        }
    }
    to_parse
}

/// A parser applied as often as it succeeds.
pub struct ZeroOrMore<P> {
    pub parser: P,
}

impl<'a, P, A> Parser<'a, Vec<A>> for ZeroOrMore<P> where P: Parser<'a, A> {
    /// The repeated parser consumes something whenever it succeeds, so the
    /// repetition comes to an end.
    open spec fn wf(&self) -> bool {
        self.parser.wf() && makes_progress::<A, P>(self.parser)
    }

    /// The values are those of successive runs of the repeated parser, in
    /// order, and the remainder is where it then fails.
    open spec fn accepts(&self, input: Seq<char>, rest: Seq<char>, value: Vec<A>) -> bool {
        repeats(self.parser, input, rest, value@) && fails_on::<A, P>(self.parser, rest)
    }

    /// The repetition never fails.
    open spec fn rejects(&self, input: Seq<char>, at: Seq<char>) -> bool {
        false
    }

    fn parse(&self, input: &'a str) -> (r: ParseResult<'a, Vec<A>>)
        ensures
            r is Ok,
    {
        let mut result = Vec::new();
        proof {
            assert(runs(self.parser, seq![input@], result@));
        }
        let rest = parse_rest(&self.parser, input, &mut result, Ghost(input@));
        Ok((rest, result))
    }

    proof fn lemma_accepts_suffix(&self, input: Seq<char>, rest: Seq<char>, value: Vec<A>) {
        if self.accepts(input, rest, value) {
            let stops = choose|stops: Seq<Seq<char>>| #[trigger]
                runs(self.parser, stops, value@) && stops[0] == input && stops.last() == rest;
            lemma_runs_suffix(self.parser, stops, value@, value@.len() as int);
        }
    }

    proof fn lemma_rejects_suffix(&self, input: Seq<char>, at: Seq<char>) {
    }
}

/// Makes the parser that applies `parser` as often as it succeeds.
///
/// It collects the values in order, stops at the first failure of `parser`
/// and leaves the input of that failed attempt as the remainder. It never
/// fails: where `parser` fails at once, the value is empty and the
/// remainder is the whole input.
pub fn zero_or_more<'a, P, A>(parser: P) -> (r: ZeroOrMore<P>) where P: Parser<'a, A>
    ensures
        r.parser == parser,
        Parser::<'a, Vec<A>>::wf(&r) <==> parser.wf() && makes_progress::<A, P>(parser),
        forall|input: Seq<char>, rest: Seq<char>, value: Vec<A>| #[trigger]
            r.accepts(input, rest, value) <==> repeats(parser, input, rest, value@) && fails_on::<
                A,
                P,
            >(parser, rest),
        forall|input: Seq<char>, at: Seq<char>|
            !#[trigger] Parser::<'a, Vec<A>>::rejects(&r, input, at),
{
    ZeroOrMore { parser }
}

/// A parser applied as often as it succeeds, and at least once.
pub struct OneOrMore<P> {
    pub parser: P,
}

impl<'a, P, A> Parser<'a, Vec<A>> for OneOrMore<P> where P: Parser<'a, A> {
    /// The repeated parser consumes something whenever it succeeds, so the
    /// repetition comes to an end.
    open spec fn wf(&self) -> bool {
        self.parser.wf() && makes_progress::<A, P>(self.parser)
    }

    /// As for `ZeroOrMore`, with at least one value.
    open spec fn accepts(&self, input: Seq<char>, rest: Seq<char>, value: Vec<A>) -> bool {
        &&& repeats(self.parser, input, rest, value@)
        &&& fails_on::<A, P>(self.parser, rest)
        &&& value@.len() >= 1
    }

    /// The repeated parser fails on the input itself, and the input is
    /// reported whole, whatever place the repeated parser reported.
    open spec fn rejects(&self, input: Seq<char>, at: Seq<char>) -> bool {
        at == input && fails_on::<A, P>(self.parser, input)
    }

    fn parse(&self, input: &'a str) -> (r: ParseResult<'a, Vec<A>>) {
        let mut result = Vec::new();
        match self.parser.parse(input) {
            Ok((rest, parsed)) => {
                proof {
                    lemma_runs_push(self.parser, seq![input@], result@, rest@, parsed);
                }
                result.push(parsed);
                let rest = parse_rest(&self.parser, rest, &mut result, Ghost(input@));
                Ok((rest, result))
            },
            Err(_) => Err(input),
        }
    }

    proof fn lemma_accepts_suffix(&self, input: Seq<char>, rest: Seq<char>, value: Vec<A>) {
        if self.accepts(input, rest, value) {
            let stops = choose|stops: Seq<Seq<char>>| #[trigger]
                runs(self.parser, stops, value@) && stops[0] == input && stops.last() == rest;
            lemma_runs_suffix(self.parser, stops, value@, value@.len() as int);
        }
    }

    proof fn lemma_rejects_suffix(&self, input: Seq<char>, at: Seq<char>) {
        lemma_suffix_refl(input);
    }
}

/// Makes the parser that applies `parser` as often as it succeeds, and
/// fails unless that is at least once.
///
/// When the first attempt fails, the input is reported whole as the place
/// of the failure. After one success it goes on as `zero_or_more` does.
pub fn one_or_more<'a, P, A>(parser: P) -> (r: OneOrMore<P>) where P: Parser<'a, A>
    ensures
        r.parser == parser,
        Parser::<'a, Vec<A>>::wf(&r) <==> parser.wf() && makes_progress::<A, P>(parser),
        forall|input: Seq<char>, rest: Seq<char>, value: Vec<A>| #[trigger]
            r.accepts(input, rest, value) <==> {
                &&& repeats(parser, input, rest, value@)
                &&& fails_on::<A, P>(parser, rest)
                &&& value@.len() >= 1
            },
        forall|input: Seq<char>, at: Seq<char>| #[trigger]
            Parser::<'a, Vec<A>>::rejects(&r, input, at) <==> at == input && fails_on::<A, P>(
                parser,
                input,
            ),
{
    OneOrMore { parser }
}

} // verus!
