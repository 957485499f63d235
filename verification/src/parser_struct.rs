//! Parsers over owned text, built from structs.
//!
//! Here a parser takes its input as a `String` and hands back the remainder
//! as a `String` of its own. A combinator holds the parsers it is built
//! from by reference, as trait objects, so parsers of different types can
//! stand side by side.
//!
//! In contracts a parser is a pair of relations over texts, as in
//! `parser_fun`: `accepts` for its successes, `rejects` for its failures.
use crate::text::{alphabetic, ident_at, split_ident, strip_prefix};
use vstd::prelude::*;

verus! {

/// What a parser returns: the remainder and the value, or the input at the
/// point of failure.
pub type ParseResult<Output> = Result<(String, Output), String>;

/// Something that parses a value of type `Output` off the front of a text.
pub trait ParserStruct<Output> {
    /// Whether this parser is fit to run.
    spec fn wf(&self) -> bool;

    /// Whether the parser, given `input`, may succeed with `value` and leave
    /// `rest`.
    spec fn accepts(&self, input: Seq<char>, rest: Seq<char>, value: Output) -> bool;

    /// Whether the parser, given `input`, may fail, and report `at` as the
    /// place of the failure.
    spec fn rejects(&self, input: Seq<char>, at: Seq<char>) -> bool;

    /// Runs the parser on `input`. What it hands back, remainder or place of
    /// failure, is a suffix of `input`.
    fn parse(&self, input: String) -> (r: ParseResult<Output>)
        requires
            self.wf(),
        ensures
            match r {
                Ok((rest, value)) => self.accepts(input@, rest@, value) && rest@.is_suffix_of(
                    input@,
                ),
                Err(at) => self.rejects(input@, at@) && at@.is_suffix_of(input@),
            },
    ;
}

/// The parser that matches one fixed text.
pub struct LiteralParser {
    pub expected: String,
}

impl Clone for LiteralParser {
    fn clone(&self) -> (r: Self)
        ensures
            r == *self,
    {
        LiteralParser { expected: self.expected.clone() }
    }
}

impl ParserStruct<String> for LiteralParser {
    open spec fn wf(&self) -> bool {
        true
    }

    /// The input begins with the expected text, which is also the value.
    open spec fn accepts(&self, input: Seq<char>, rest: Seq<char>, value: String) -> bool {
        input == self.expected@ + rest && value@ == self.expected@
    }

    /// The input does not begin with the expected text; nothing is consumed.
    open spec fn rejects(&self, input: Seq<char>, at: Seq<char>) -> bool {
        at == input && !self.expected@.is_prefix_of(input)
    }

    fn parse(&self, input: String) -> (r: ParseResult<String>) {
        match strip_prefix(input.as_str(), self.expected.as_str()) {
            Some(rest) => Ok((rest.to_owned(), self.expected.clone())),
            None => Err(input),
        }
    }
}

/// The parser that matches an identifier: a letter, then letters and
/// hyphens, as many as there are.
pub struct IdentParser {}

impl Clone for IdentParser {
    fn clone(&self) -> (r: Self)
        ensures
            r == *self,
    {
        IdentParser {}
    }
}

impl ParserStruct<String> for IdentParser {
    open spec fn wf(&self) -> bool {
        true
    }

    /// The value is the identifier at the front of the input, and the
    /// remainder is what follows it.
    open spec fn accepts(&self, input: Seq<char>, rest: Seq<char>, value: String) -> bool {
        input == value@ + rest && ident_at(input, value@.len() as int)
    }

    /// The input does not begin with a letter; nothing is consumed.
    open spec fn rejects(&self, input: Seq<char>, at: Seq<char>) -> bool {
        at == input && (input.len() == 0 || !alphabetic(input[0]))
    }

    fn parse(&self, input: String) -> (r: ParseResult<String>) {
        match split_ident(input.as_str()) {
            Some((name, rest)) => Ok((rest.to_owned(), name.to_owned())),
            None => Err(input),
        }
    }
}

/// Two parsers in sequence.
#[derive(Clone)]
#[verifier::reject_recursive_types(A)]
#[verifier::reject_recursive_types(B)]
pub struct PairParser<'a, A, B> {
    pub parser_a: &'a dyn ParserStruct<A>,
    pub parser_b: &'a dyn ParserStruct<B>,
}

impl<'a, A, B> ParserStruct<(A, B)> for PairParser<'a, A, B> {
    open spec fn wf(&self) -> bool {
        self.parser_a.wf() && self.parser_b.wf()
    }

    /// The first parser succeeds on the input, the second on what the first
    /// left; the value holds both values, in that order.
    open spec fn accepts(&self, input: Seq<char>, rest: Seq<char>, value: (A, B)) -> bool {
        exists|mid: Seq<char>| #[trigger]
            self.parser_a.accepts(input, mid, value.0) && self.parser_b.accepts(
                mid,
                rest,
                value.1,
            )
    }

    /// Either the first parser fails on the input, or it succeeds and the
    /// second fails on what the first left. The place of the failure is the
    /// one that the failing parser reports.
    open spec fn rejects(&self, input: Seq<char>, at: Seq<char>) -> bool {
        self.parser_a.rejects(input, at) || exists|mid: Seq<char>, v: A| #[trigger]
            self.parser_a.accepts(input, mid, v) && self.parser_b.rejects(mid, at)
    }

    fn parse(&self, input: String) -> (r: ParseResult<(A, B)>) {
        match self.parser_a.parse(input) {
            Ok((new_input, res1)) => {
                let ghost mid = new_input@;
                match self.parser_b.parse(new_input) {
                    Ok((rest_input, res2)) => {
                        let value = (res1, res2);
                        proof {
                            assert(self.parser_a.accepts(input@, mid, value.0));
                        }
                        Ok((rest_input, value))
                    },
                    Err(at) => Err(at),
                }
            },
            Err(at) => Err(at),
        }
    }
}

/// Whether every success of `p` consumes at least one character.
pub open spec fn makes_progress<A, P: ParserStruct<A> + ?Sized>(p: &P) -> bool {
    forall|input: Seq<char>, rest: Seq<char>, value: A| #[trigger]
        p.accepts(input, rest, value) ==> rest.len() < input.len()
}

/// Whether `p` may fail on `input`.
pub open spec fn fails_on<A, P: ParserStruct<A> + ?Sized>(p: &P, input: Seq<char>) -> bool {
    exists|at: Seq<char>| p.rejects(input, at)
}

/// Whether `items` are the values of successive runs of `p`: the first run
/// starts at `stops[0]`, run `i` goes from `stops[i]` to `stops[i + 1]`.
pub open spec fn runs<A, P: ParserStruct<A> + ?Sized>(
    p: &P,
    stops: Seq<Seq<char>>,
    items: Seq<A>,
) -> bool {
    &&& stops.len() == items.len() + 1
    &&& forall|i: int|
        0 <= i < items.len() ==> p.accepts(stops[i], stops[i + 1], #[trigger] items[i])
}

/// Whether `p`, run again and again from `input`, each time on what the
/// last run left, may yield `items` and end at `rest`.
pub open spec fn repeats<A, P: ParserStruct<A> + ?Sized>(
    p: &P,
    input: Seq<char>,
    rest: Seq<char>,
    items: Seq<A>,
) -> bool {
    exists|stops: Seq<Seq<char>>| #[trigger]
        runs(p, stops, items) && stops[0] == input && stops.last() == rest
}

/// A parser applied as often as it succeeds.
#[verifier::reject_recursive_types(A)]
pub struct ZeroOrMoreParser<'a, A> {
    pub parser: &'a dyn ParserStruct<A>,
}

impl<'a, A> ParserStruct<Vec<A>> for ZeroOrMoreParser<'a, A> {
    /// The repeated parser consumes something whenever it succeeds, so the
    /// repetition comes to an end.
    open spec fn wf(&self) -> bool {
        self.parser.wf() && makes_progress::<A, _>(self.parser)
    }

    /// The values are those of successive runs of the repeated parser, in
    /// order, and the remainder is where it then fails.
    open spec fn accepts(&self, input: Seq<char>, rest: Seq<char>, value: Vec<A>) -> bool {
        repeats(self.parser, input, rest, value@) && fails_on::<A, _>(self.parser, rest)
    }

    /// The repetition never fails.
    open spec fn rejects(&self, input: Seq<char>, at: Seq<char>) -> bool {
        false
    }

    fn parse(&self, input: String) -> (r: ParseResult<Vec<A>>)
        ensures
            r is Ok,
    {
        let mut result: Vec<A> = Vec::new();
        let mut to_parse = input;
        let ghost mut stops: Seq<Seq<char>> = seq![input@];
        loop
            invariant
                self.wf(),
                runs(self.parser, stops, result@),
                stops[0] == input@,
                stops.last() == to_parse@,
                to_parse@.is_suffix_of(input@),
            ensures
                fails_on::<A, _>(self.parser, to_parse@),
            decreases to_parse@.len(),
        {
            match self.parser.parse(to_parse.clone()) {
                Ok((rest, parsed)) => {
                    proof {
                        stops = stops.push(rest@);
                    }
                    result.push(parsed);
                    to_parse = rest;
                },
                Err(_) => {
                    break ;
                },
            }
        }
        Ok((to_parse, result))
    }
}

/// Where the repeated parser fails on the input, the repetition may succeed
/// with no value and the whole input left.
pub proof fn lemma_zero_or_more_empty<'a, A>(
    p: ZeroOrMoreParser<'a, A>,
    input: Seq<char>,
    value: Vec<A>,
)
    requires
        fails_on::<A, _>(p.parser, input),
        value@.len() == 0,
    ensures
        p.accepts(input, input, value),
{
    assert(runs(p.parser, seq![input], value@));
}

/// Where the repeated parser cannot succeed on the input, the repetition
/// succeeds in no other way than with no value and the whole input left.
pub proof fn lemma_zero_or_more_no_match<'a, A>(
    p: ZeroOrMoreParser<'a, A>,
    input: Seq<char>,
    rest: Seq<char>,
    value: Vec<A>,
)
    requires
        forall|r: Seq<char>, v: A| !p.parser.accepts(input, r, v),
        p.accepts(input, rest, value),
    ensures
        rest == input,
        value@.len() == 0,
{
    let stops = choose|stops: Seq<Seq<char>>| #[trigger]
        runs(p.parser, stops, value@) && stops[0] == input && stops.last() == rest;
    if value@.len() > 0 {
        assert(p.parser.accepts(stops[0], stops[1], value@[0]));
    }
}

} // verus!
