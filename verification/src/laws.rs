//! What holds of every parser built from the primitives and combinators of
//! `parser_fun`, stated over the parsers' `accepts` and `rejects`.
//!
//! The first group says what each kind of parser accepts and rejects; a
//! caller that holds a parser built from functions or closures learns it
//! from these. The groups after it say where failures are reported, that
//! remainders are suffixes, how the two repetitions relate, when a parser
//! consumes something, and that the outcome of a parser on an input is
//! settled.
use crate::parser_fun::{
    fails_on, lemma_runs_suffix, makes_progress, match_ident, repeats, runs, Literal, Mapped,
    OneOrMore, Pair, ParseResult, Parser, ZeroOrMore,
};
use vstd::prelude::*;

verus! {

/// A function is fit to run as a parser when it takes every input and
/// what it hands back lies at the end of what it was given.
pub proof fn lemma_fn_wf<'a, F, Output>(f: F) where F: Fn(&'a str) -> ParseResult<'a, Output>
    ensures
        Parser::<'a, Output>::wf(&f) <==> {
            &&& forall|i: &'a str| call_requires(f, (i,))
            &&& forall|i: &'a str, r: &'a str, v: Output| #[trigger]
                call_ensures(f, (i,), Ok((r, v))) ==> r@.is_suffix_of(i@)
            &&& forall|i: &'a str, a: &'a str| #[trigger]
                call_ensures(f, (i,), Err::<(&'a str, Output), &'a str>(a)) ==> a@.is_suffix_of(i@)
        },
{
}

/// The successes of a function used as a parser are what it may return as
/// `Ok`, taken by their views.
pub proof fn lemma_fn_accepts<'a, F, Output>(
    f: F,
    input: Seq<char>,
    rest: Seq<char>,
    value: Output,
) where F: Fn(&'a str) -> ParseResult<'a, Output>
    ensures
        Parser::<'a, Output>::accepts(&f, input, rest, value) <==> exists|i: &'a str, r: &'a str|
            i@ == input && r@ == rest && #[trigger] call_ensures(f, (i,), Ok((r, value))),
{
}

/// The failures of a function used as a parser are what it may return as
/// `Err`, taken by their views.
pub proof fn lemma_fn_rejects<'a, F, Output>(f: F, input: Seq<char>, at: Seq<char>) where
    F: Fn(&'a str) -> ParseResult<'a, Output>,

    ensures
        Parser::<'a, Output>::rejects(&f, input, at) <==> exists|i: &'a str, a: &'a str|
            i@ == input && a@ == at && #[trigger] call_ensures(
                f,
                (i,),
                Err::<(&'a str, Output), &'a str>(a),
            ),
{
}

/// A pair is fit to run when both of its parsers are.
pub proof fn lemma_pair_wf<'a, PA, PB, A, B>(p: Pair<PA, PB>) where
    PA: Parser<'a, A>,
    PB: Parser<'a, B>,

    ensures
        Parser::<'a, (A, B)>::wf(&p) <==> p.first.wf() && p.second.wf(),
{
}

/// A pair succeeds where its first parser succeeds and its second parser
/// succeeds on what the first one left. The value holds both values in
/// order, and the remainder is the second parser's.
pub proof fn lemma_pair_accepts<'a, PA, PB, A, B>(
    p: Pair<PA, PB>,
    input: Seq<char>,
    rest: Seq<char>,
    value: (A, B),
) where PA: Parser<'a, A>, PB: Parser<'a, B>
    ensures
        p.accepts(input, rest, value) <==> exists|mid: Seq<char>| #[trigger]
            p.first.accepts(input, mid, value.0) && p.second.accepts(mid, rest, value.1),
{
}

/// A pair fails where its first parser fails, and then as that one does;
/// and where its first parser succeeds and its second parser fails on what
/// the first one left, and then as the second one does.
pub proof fn lemma_pair_rejects<'a, PA, PB, A, B>(
    p: Pair<PA, PB>,
    input: Seq<char>,
    at: Seq<char>,
) where PA: Parser<'a, A>, PB: Parser<'a, B>
    ensures
        Parser::<'a, (A, B)>::rejects(&p, input, at) <==> (p.first.rejects(input, at) || exists|
            mid: Seq<char>,
            v: A,
        | #[trigger]
            p.first.accepts(input, mid, v) && p.second.rejects(mid, at)),
{
}

/// A mapped parser is fit to run when the parser inside it is and the
/// function takes every value.
pub proof fn lemma_map_wf<'a, P, F, A, B>(m: Mapped<P, F, A>) where
    P: Parser<'a, A>,
    F: Fn(A) -> B,

    ensures
        Parser::<'a, B>::wf(&m) <==> m.parser.wf() && forall|a: A| call_requires(m.map_fn, (a,)),
{
}

/// A mapped parser succeeds with a value where, and only where, the parser
/// inside it succeeds with a value that the function turns into that one;
/// the remainder is the same.
pub proof fn lemma_map_success<'a, P, F, A, B>(
    m: Mapped<P, F, A>,
    input: Seq<char>,
    rest: Seq<char>,
    value: B,
) where P: Parser<'a, A>, F: Fn(A) -> B
    ensures
        m.accepts(input, rest, value) <==> exists|a: A| #[trigger]
            m.parser.accepts(input, rest, a) && call_ensures(m.map_fn, (a,), value),
{
}

/// A mapped parser fails where, and only where, the parser inside it fails,
/// and at the same place.
pub proof fn lemma_map_failure<'a, P, F, A, B>(
    m: Mapped<P, F, A>,
    input: Seq<char>,
    at: Seq<char>,
) where P: Parser<'a, A>, F: Fn(A) -> B
    ensures
        Parser::<'a, B>::rejects(&m, input, at) <==> m.parser.rejects(input, at),
{
}

/// A repetition is fit to run when the repeated parser is, and consumes
/// something whenever it succeeds.
pub proof fn lemma_zero_or_more_wf<'a, P, A>(p: ZeroOrMore<P>) where P: Parser<'a, A>
    ensures
        Parser::<'a, Vec<A>>::wf(&p) <==> p.parser.wf() && makes_progress::<A, P>(p.parser),
{
}

/// A repetition succeeds with the values of successive runs of the repeated
/// parser, and leaves the text on which that parser then fails.
pub proof fn lemma_zero_or_more_accepts<'a, P, A>(
    p: ZeroOrMore<P>,
    input: Seq<char>,
    rest: Seq<char>,
    value: Vec<A>,
) where P: Parser<'a, A>
    ensures
        p.accepts(input, rest, value) <==> repeats(p.parser, input, rest, value@) && fails_on::<
            A,
            P,
        >(p.parser, rest),
{
}

/// A repetition that may match nothing never fails.
pub proof fn lemma_zero_or_more_never_fails<'a, P, A>(
    p: ZeroOrMore<P>,
    input: Seq<char>,
    at: Seq<char>,
) where P: Parser<'a, A>
    ensures
        !Parser::<'a, Vec<A>>::rejects(&p, input, at),
{
}

/// A repetition that wants a match is fit to run when the repeated parser
/// is, and consumes something whenever it succeeds.
pub proof fn lemma_one_or_more_wf<'a, P, A>(p: OneOrMore<P>) where P: Parser<'a, A>
    ensures
        Parser::<'a, Vec<A>>::wf(&p) <==> p.parser.wf() && makes_progress::<A, P>(p.parser),
{
}

/// A repetition that wants a match succeeds as the plain repetition does,
/// where there is at least one value.
pub proof fn lemma_one_or_more_accepts<'a, P, A>(
    p: OneOrMore<P>,
    input: Seq<char>,
    rest: Seq<char>,
    value: Vec<A>,
) where P: Parser<'a, A>
    ensures
        p.accepts(input, rest, value) <==> {
            &&& repeats(p.parser, input, rest, value@)
            &&& fails_on::<A, P>(p.parser, rest)
            &&& value@.len() >= 1
        },
{
}

/// A repetition that wants a match fails where the repeated parser fails on
/// the input itself, and reports the input whole.
pub proof fn lemma_one_or_more_rejects<'a, P, A>(
    p: OneOrMore<P>,
    input: Seq<char>,
    at: Seq<char>,
) where P: Parser<'a, A>
    ensures
        Parser::<'a, Vec<A>>::rejects(&p, input, at) <==> at == input && fails_on::<A, P>(
            p.parser,
            input,
        ),
{
}

/// Whether `p` consumes nothing when it fails: the place of every failure is
/// the input itself.
pub open spec fn fails_in_place<'a, A, P: Parser<'a, A>>(p: P) -> bool {
    forall|input: Seq<char>, at: Seq<char>| #[trigger] p.rejects(input, at) ==> at == input
}

/// A literal consumes nothing when it fails.
pub proof fn lemma_literal_fails_in_place<'a>(p: Literal<'a>)
    ensures
        fails_in_place::<&'a str, Literal<'a>>(p),
{
}

/// A mapped parser consumes nothing when it fails, if the parser inside it
/// does not.
pub proof fn lemma_map_fails_in_place<'a, P, F, A, B>(m: Mapped<P, F, A>) where
    P: Parser<'a, A>,
    F: Fn(A) -> B,

    requires
        fails_in_place::<A, P>(m.parser),
    ensures
        fails_in_place::<B, Mapped<P, F, A>>(m),
{
}

/// A repetition that wants a match consumes nothing when it fails, whatever
/// the repeated parser does.
pub proof fn lemma_one_or_more_fails_in_place<'a, P, A>(p: OneOrMore<P>) where P: Parser<'a, A>
    ensures
        fails_in_place::<Vec<A>, OneOrMore<P>>(p),
{
}

/// A pair of parsers that consume nothing when they fail reports a failure
/// either at its input, where the first parser failed, or at the remainder
/// that the first parser left, where the second one failed.
pub proof fn lemma_pair_failure_place<'a, PA, PB, A, B>(
    p: Pair<PA, PB>,
    input: Seq<char>,
    at: Seq<char>,
) where PA: Parser<'a, A>, PB: Parser<'a, B>
    requires
        fails_in_place::<A, PA>(p.first),
        fails_in_place::<B, PB>(p.second),
        Parser::<'a, (A, B)>::rejects(&p, input, at),
    ensures
        (at == input && p.first.rejects(input, input)) || (exists|v: A| #[trigger]
            p.first.accepts(input, at, v) && p.second.rejects(at, at)),
{
}

/// What a success leaves is a suffix of the input, and the input is what
/// was consumed followed by what was left.
pub proof fn lemma_success_splits_input<'a, A, P: Parser<'a, A>>(
    p: P,
    input: Seq<char>,
    rest: Seq<char>,
    value: A,
)
    requires
        p.wf(),
        p.accepts(input, rest, value),
    ensures
        rest.is_suffix_of(input),
        input == input.take(input.len() - rest.len()) + rest,
{
    p.lemma_accepts_suffix(input, rest, value);
}

/// Where the repeated parser fails on the input, the repetition may succeed
/// with no value and the whole input left.
pub proof fn lemma_zero_or_more_empty<'a, P, A>(
    p: ZeroOrMore<P>,
    input: Seq<char>,
    value: Vec<A>,
) where P: Parser<'a, A>
    requires
        fails_on::<A, P>(p.parser, input),
        value@.len() == 0,
    ensures
        p.accepts(input, input, value),
{
    assert(runs(p.parser, seq![input], value@));
}

/// Where the repeated parser cannot succeed on the input, the repetition
/// succeeds in no other way than with no value and the whole input left.
pub proof fn lemma_zero_or_more_no_match<'a, P, A>(
    p: ZeroOrMore<P>,
    input: Seq<char>,
    rest: Seq<char>,
    value: Vec<A>,
) where P: Parser<'a, A>
    requires
        forall|r: Seq<char>, v: A| !p.parser.accepts(input, r, v),
        p.accepts(input, rest, value),
    ensures
        rest == input,
        value@.len() == 0,
{
    let stops = choose|stops: Seq<Seq<char>>| #[trigger]
        runs(p.parser, stops, value@) && stops[0] == input && stops.last() == rest;
    if value@.len() > 0 {
        assert(p.parser.accepts(stops[0], stops[1], value@[0]));
    }
}

/// Every success of `one_or_more` is a success of `zero_or_more`, with the
/// same values and the same remainder.
pub proof fn lemma_one_or_more_success<'a, P, A>(
    parser: P,
    input: Seq<char>,
    rest: Seq<char>,
    value: Vec<A>,
) where P: Parser<'a, A>
    requires
        (OneOrMore { parser }).accepts(input, rest, value),
    ensures
        (ZeroOrMore { parser }).accepts(input, rest, value),
{
}

/// Every success of `zero_or_more` with at least one value is a success of
/// `one_or_more`, with the same values and the same remainder.
pub proof fn lemma_zero_or_more_success<'a, P, A>(
    parser: P,
    input: Seq<char>,
    rest: Seq<char>,
    value: Vec<A>,
) where P: Parser<'a, A>
    requires
        (ZeroOrMore { parser }).accepts(input, rest, value),
        value@.len() >= 1,
    ensures
        (OneOrMore { parser }).accepts(input, rest, value),
{
}

/// Where `one_or_more` fails, `zero_or_more` may succeed with no value and
/// the whole input left.
pub proof fn lemma_one_or_more_failure<'a, P, A>(
    parser: P,
    input: Seq<char>,
    at: Seq<char>,
    empty: Vec<A>,
) where P: Parser<'a, A>
    requires
        Parser::<'a, Vec<A>>::rejects(&OneOrMore { parser }, input, at),
        empty@.len() == 0,
    ensures
        (ZeroOrMore { parser }).accepts(input, input, empty),
{
    lemma_zero_or_more_empty(ZeroOrMore { parser }, input, empty);
}

/// `match_ident` is a parser: it is fit to run, consumes nothing when it
/// fails, and consumes at least the first letter when it succeeds.
pub proof fn lemma_match_ident_parser<'a>()
    ensures
        Parser::<'a, String>::wf(&match_ident),
        fails_in_place::<String, _>(match_ident),
        makes_progress::<String, _>(match_ident),
{
    lemma_fn_wf::<_, String>(match_ident);
    assert forall|input: Seq<char>, at: Seq<char>| #[trigger]
        Parser::<'a, String>::rejects(&match_ident, input, at) implies at == input by {
        lemma_fn_rejects::<_, String>(match_ident, input, at);
    }
    assert forall|input: Seq<char>, rest: Seq<char>, value: String| #[trigger]
        Parser::<'a, String>::accepts(&match_ident, input, rest, value) implies rest.len()
        < input.len() by {
        lemma_fn_accepts::<_, String>(match_ident, input, rest, value);
    }
}

/// A literal that is not empty consumes something when it succeeds.
pub proof fn lemma_literal_progress<'a>(p: Literal<'a>)
    requires
        p.expected@.len() > 0,
    ensures
        makes_progress::<&'a str, Literal<'a>>(p),
{
}

/// A pair consumes something when it succeeds, if one of its two parsers
/// does.
pub proof fn lemma_pair_progress<'a, PA, PB, A, B>(p: Pair<PA, PB>) where
    PA: Parser<'a, A>,
    PB: Parser<'a, B>,

    requires
        Parser::<'a, (A, B)>::wf(&p),
        makes_progress::<A, PA>(p.first) || makes_progress::<B, PB>(p.second),
    ensures
        makes_progress::<(A, B), Pair<PA, PB>>(p),
{
    assert forall|input: Seq<char>, rest: Seq<char>, value: (A, B)| #[trigger]
        p.accepts(input, rest, value) implies rest.len() < input.len() by {
        let mid = choose|mid: Seq<char>| #[trigger]
            p.first.accepts(input, mid, value.0) && p.second.accepts(mid, rest, value.1);
        p.first.lemma_accepts_suffix(input, mid, value.0);
        p.second.lemma_accepts_suffix(mid, rest, value.1);
    }
}

/// A mapped parser consumes something when it succeeds, if the parser
/// inside it does.
pub proof fn lemma_map_progress<'a, P, F, A, B>(m: Mapped<P, F, A>) where
    P: Parser<'a, A>,
    F: Fn(A) -> B,

    requires
        makes_progress::<A, P>(m.parser),
    ensures
        makes_progress::<B, Mapped<P, F, A>>(m),
{
}

/// A repetition that wants a match consumes something when it succeeds.
pub proof fn lemma_one_or_more_progress<'a, P, A>(p: OneOrMore<P>) where P: Parser<'a, A>
    requires
        Parser::<'a, Vec<A>>::wf(&p),
    ensures
        makes_progress::<Vec<A>, OneOrMore<P>>(p),
{
    assert forall|input: Seq<char>, rest: Seq<char>, value: Vec<A>| #[trigger]
        p.accepts(input, rest, value) implies rest.len() < input.len() by {
        let stops = choose|stops: Seq<Seq<char>>| #[trigger]
            runs(p.parser, stops, value@) && stops[0] == input && stops.last() == rest;
        assert(p.parser.accepts(stops[0], stops[1], value@[0]));
        lemma_runs_suffix(p.parser, stops.skip(1), value@.skip(1), value@.len() - 1);
    }
}

/// Whether the outcome of `p` on an input is settled, but for the value: on
/// one input it does not both succeed and fail, its successes all leave the
/// same remainder, and its failures all report the same place.
pub open spec fn settled<'a, A, P: Parser<'a, A>>(p: P) -> bool {
    &&& forall|input: Seq<char>, rest: Seq<char>, value: A, at: Seq<char>|
        #![trigger p.accepts(input, rest, value), p.rejects(input, at)]
        !(p.accepts(input, rest, value) && p.rejects(input, at))
    &&& forall|input: Seq<char>, r1: Seq<char>, v1: A, r2: Seq<char>, v2: A|
        #![trigger p.accepts(input, r1, v1), p.accepts(input, r2, v2)]
        p.accepts(input, r1, v1) && p.accepts(input, r2, v2) ==> r1 == r2
    &&& forall|input: Seq<char>, a1: Seq<char>, a2: Seq<char>|
        #![trigger p.rejects(input, a1), p.rejects(input, a2)]
        p.rejects(input, a1) && p.rejects(input, a2) ==> a1 == a2
}

/// Taking the same prefix off a text leaves the same remainder.
proof fn lemma_same_prefix_same_rest(head: Seq<char>, r1: Seq<char>, r2: Seq<char>)
    requires
        head + r1 == head + r2,
    ensures
        r1 == r2,
{
    assert(r2 =~= (head + r2).skip(head.len() as int));
}

/// The outcome of a literal is settled.
pub proof fn lemma_literal_settled<'a>(p: Literal<'a>)
    ensures
        settled::<&'a str, Literal<'a>>(p),
{
    assert forall|input: Seq<char>, r1: Seq<char>, v1: &'a str, r2: Seq<char>, v2: &'a str|
        #[trigger] p.accepts(input, r1, v1) && #[trigger] p.accepts(input, r2, v2) implies r1
        == r2 by {
        lemma_same_prefix_same_rest(p.expected@, r1, r2);
    }
}

/// The outcome of `match_ident` is settled.
pub proof fn lemma_match_ident_settled<'a>()
    ensures
        settled::<String, _>(match_ident),
{
    assert forall|input: Seq<char>, rest: Seq<char>, value: String, at: Seq<char>|
        !(#[trigger] Parser::<'a, String>::accepts(&match_ident, input, rest, value)
            && #[trigger] Parser::<'a, String>::rejects(&match_ident, input, at)) by {
        lemma_fn_accepts::<_, String>(match_ident, input, rest, value);
        lemma_fn_rejects::<_, String>(match_ident, input, at);
    }
    assert forall|input: Seq<char>, r1: Seq<char>, v1: String, r2: Seq<char>, v2: String|
        #[trigger] Parser::<'a, String>::accepts(&match_ident, input, r1, v1)
            && #[trigger] Parser::<'a, String>::accepts(&match_ident, input, r2, v2) implies r1
        == r2 by {
        lemma_fn_accepts::<_, String>(match_ident, input, r1, v1);
        lemma_fn_accepts::<_, String>(match_ident, input, r2, v2);
        assert(r2 =~= input.skip(v2@.len() as int));
    }
    assert forall|input: Seq<char>, a1: Seq<char>, a2: Seq<char>|
        #[trigger] Parser::<'a, String>::rejects(&match_ident, input, a1)
            && #[trigger] Parser::<'a, String>::rejects(&match_ident, input, a2) implies a1
        == a2 by {
        lemma_fn_rejects::<_, String>(match_ident, input, a1);
        lemma_fn_rejects::<_, String>(match_ident, input, a2);
    }
}

/// The outcome of a pair is settled, if those of its two parsers are.
pub proof fn lemma_pair_settled<'a, PA, PB, A, B>(p: Pair<PA, PB>) where
    PA: Parser<'a, A>,
    PB: Parser<'a, B>,

    requires
        settled::<A, PA>(p.first),
        settled::<B, PB>(p.second),
    ensures
        settled::<(A, B), Pair<PA, PB>>(p),
{
}

/// The outcome of a mapped parser is settled, if that of the parser inside
/// it is.
pub proof fn lemma_map_settled<'a, P, F, A, B>(m: Mapped<P, F, A>) where
    P: Parser<'a, A>,
    F: Fn(A) -> B,

    requires
        settled::<A, P>(m.parser),
    ensures
        settled::<B, Mapped<P, F, A>>(m),
{
}

/// Two chains of runs of a settled parser from the same text stop at the
/// same places, as far as both go.
proof fn lemma_runs_agree<'a, A, P: Parser<'a, A>>(
    p: P,
    s1: Seq<Seq<char>>,
    i1: Seq<A>,
    s2: Seq<Seq<char>>,
    i2: Seq<A>,
    k: int,
)
    requires
        settled::<A, P>(p),
        runs(p, s1, i1),
        runs(p, s2, i2),
        s1[0] == s2[0],
        0 <= k <= i1.len(),
        k <= i2.len(),
    ensures
        s1[k] == s2[k],
    decreases k,
{
    if k > 0 {
        lemma_runs_agree(p, s1, i1, s2, i2, k - 1);
        assert(p.accepts(s1[k - 1], s1[k - 1 + 1], i1[k - 1]));
        assert(p.accepts(s2[k - 1], s2[k - 1 + 1], i2[k - 1]));
    }
}

/// Two repetitions of a settled parser on the same input yield equally many
/// values and leave the same remainder.
pub proof fn lemma_repeats_settled<'a, A, P: Parser<'a, A>>(
    p: P,
    input: Seq<char>,
    r1: Seq<char>,
    v1: Seq<A>,
    r2: Seq<char>,
    v2: Seq<A>,
)
    requires
        settled::<A, P>(p),
        repeats(p, input, r1, v1),
        fails_on::<A, P>(p, r1),
        repeats(p, input, r2, v2),
        fails_on::<A, P>(p, r2),
    ensures
        r1 == r2,
        v1.len() == v2.len(),
{
    let s1 = choose|stops: Seq<Seq<char>>| #[trigger]
        runs(p, stops, v1) && stops[0] == input && stops.last() == r1;
    let s2 = choose|stops: Seq<Seq<char>>| #[trigger]
        runs(p, stops, v2) && stops[0] == input && stops.last() == r2;
    if v1.len() < v2.len() {
        let n = v1.len() as int;
        lemma_runs_agree(p, s1, v1, s2, v2, n);
        assert(p.accepts(s2[n], s2[n + 1], v2[n]));
    } else if v2.len() < v1.len() {
        let n = v2.len() as int;
        lemma_runs_agree(p, s1, v1, s2, v2, n);
        assert(p.accepts(s1[n], s1[n + 1], v1[n]));
    } else {
        lemma_runs_agree(p, s1, v1, s2, v2, v1.len() as int);
    }
}

/// The outcome of a repetition is settled, if that of the repeated parser
/// is.
pub proof fn lemma_zero_or_more_settled<'a, P, A>(p: ZeroOrMore<P>) where P: Parser<'a, A>
    requires
        settled::<A, P>(p.parser),
    ensures
        settled::<Vec<A>, ZeroOrMore<P>>(p),
{
    assert forall|input: Seq<char>, r1: Seq<char>, v1: Vec<A>, r2: Seq<char>, v2: Vec<A>|
        #[trigger] p.accepts(input, r1, v1) && #[trigger] p.accepts(input, r2, v2) implies r1
        == r2 by {
        lemma_repeats_settled(p.parser, input, r1, v1@, r2, v2@);
    }
}

/// The outcome of a repetition that wants a match is settled, if that of
/// the repeated parser is.
pub proof fn lemma_one_or_more_settled<'a, P, A>(p: OneOrMore<P>) where P: Parser<'a, A>
    requires
        settled::<A, P>(p.parser),
    ensures
        settled::<Vec<A>, OneOrMore<P>>(p),
{
    assert forall|input: Seq<char>, rest: Seq<char>, value: Vec<A>, at: Seq<char>|
        !(#[trigger] p.accepts(input, rest, value) && #[trigger] Parser::<'a, Vec<A>>::rejects(
            &p,
            input,
            at,
        )) by {
        if p.accepts(input, rest, value) && Parser::<'a, Vec<A>>::rejects(&p, input, at) {
            let stops = choose|stops: Seq<Seq<char>>| #[trigger]
                runs(p.parser, stops, value@) && stops[0] == input && stops.last() == rest;
            assert(p.parser.accepts(stops[0], stops[1], value@[0]));
        }
    }
    assert forall|input: Seq<char>, r1: Seq<char>, v1: Vec<A>, r2: Seq<char>, v2: Vec<A>|
        #[trigger] p.accepts(input, r1, v1) && #[trigger] p.accepts(input, r2, v2) implies r1
        == r2 by {
        lemma_repeats_settled(p.parser, input, r1, v1@, r2, v2@);
    }
}

/// Where `one_or_more` of a settled parser fails, `zero_or_more` of it
/// succeeds in no other way than with no value and the whole input left.
pub proof fn lemma_one_or_more_failure_settled<'a, P, A>(
    parser: P,
    input: Seq<char>,
    at: Seq<char>,
    rest: Seq<char>,
    value: Vec<A>,
) where P: Parser<'a, A>
    requires
        settled::<A, P>(parser),
        Parser::<'a, Vec<A>>::rejects(&OneOrMore { parser }, input, at),
        (ZeroOrMore { parser }).accepts(input, rest, value),
    ensures
        rest == input,
        value@.len() == 0,
{
    lemma_zero_or_more_no_match(ZeroOrMore { parser }, input, rest, value);
}

} // verus!
