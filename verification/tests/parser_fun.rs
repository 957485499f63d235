use std::cell::Cell;

use parsercomb::parser_fun;
use parsercomb::parser_fun::{
    match_ident, match_letter, match_literal, one_or_more, pair, zero_or_more, ParseResult, Parser,
};

#[derive(Debug, PartialEq, Eq)]
struct Ident {
    val: String,
}

fn digit(input: &str) -> ParseResult<'_, u32> {
    match input.chars().next() {
        Some(c) if c.is_ascii_digit() => Ok((&input[1..], c as u32 - '0' as u32)),
        _ => Err(input),
    }
}

#[test]
fn test_letter() {
    let c = '\u{1F601}';
    let phrase = "\u{1F601} smile";
    assert_eq!(match_letter(c, phrase), Ok((" smile", ())));
}

#[test]
fn parser_fun_test_literal() {
    let lit = "\u{1F601}";
    let phrase = "\u{1F601} smile";
    assert_eq!(match_literal(lit).parse(phrase), Ok((" smile", lit)));
}

#[test]
fn parser_fun_test_ident() {
    let phrase = "demo-id>";
    assert_eq!(match_ident(phrase), Ok((">", String::from("demo-id"))));
}

#[test]
fn parser_fun_test_pair() {
    let phrase = "<demo-id>";
    let less_parser = match_literal("<");
    let great_parser = match_literal(">");
    let pair_parser = pair(pair(less_parser, match_ident), great_parser);
    assert_eq!(
        pair_parser.parse(phrase),
        Ok(("", (("<", String::from("demo-id")), ">")))
    );
}

#[test]
fn parser_fun_test_zero_or_more() {
    let phrase = "<demo-id><kaspa><xxx>";
    let less_parser = match_literal("<");
    let great_parser = match_literal(">");
    let ident_parser = parser_fun::map(match_ident, |id| Ident { val: id });
    let pair_parser = pair(pair(less_parser, ident_parser), great_parser);
    assert_eq!(
        zero_or_more(pair_parser).parse(phrase),
        Ok((
            "",
            vec![
                (
                    (
                        "<",
                        Ident {
                            val: String::from("demo-id")
                        }
                    ),
                    ">"
                ),
                (
                    (
                        "<",
                        Ident {
                            val: String::from("kaspa")
                        }
                    ),
                    ">"
                ),
                (
                    (
                        "<",
                        Ident {
                            val: String::from("xxx")
                        }
                    ),
                    ">"
                )
            ]
        ))
    )
}

#[test]
fn letter_consumes_one_code_point() {
    assert_eq!(match_letter('a', "abc"), Ok(("bc", ())));
    assert_eq!(match_letter('\u{e9}', "\u{e9}t\u{e9}"), Ok(("t\u{e9}", ())));
    assert_eq!(match_letter('\u{20ac}', "\u{20ac}5"), Ok(("5", ())));
    assert_eq!(match_letter('x', "x"), Ok(("", ())));
}

#[test]
fn letter_fails_without_consuming() {
    assert_eq!(match_letter('a', "bcd"), Err("bcd"));
    assert_eq!(match_letter('a', "Abc"), Err("Abc"));
    assert_eq!(match_letter('a', ""), Err(""));
    assert_eq!(match_letter('e', "\u{e9}"), Err("\u{e9}"));
}

#[test]
fn literal_opening_bracket() {
    assert_eq!(match_literal("<").parse("<demo-id>"), Ok(("demo-id>", "<")));
}

#[test]
fn literal_matches_exactly() {
    assert_eq!(match_literal("abc").parse("abcdef"), Ok(("def", "abc")));
    assert_eq!(match_literal("abc").parse("abc"), Ok(("", "abc")));
    assert_eq!(match_literal("").parse("abc"), Ok(("abc", "")));
    assert_eq!(match_literal("").parse(""), Ok(("", "")));
}

#[test]
fn literal_fails_without_consuming() {
    assert_eq!(match_literal("abc").parse("abd"), Err("abd"));
    assert_eq!(match_literal("abc").parse("ab"), Err("ab"));
    assert_eq!(match_literal("abc").parse(""), Err(""));
    assert_eq!(match_literal("abc").parse("ABC"), Err("ABC"));
    assert_eq!(match_literal("abc").parse(" abc"), Err(" abc"));
}

#[test]
fn literal_respects_character_boundaries() {
    // U+00E9 and U+00EA share their first byte.
    assert_eq!(match_literal("\u{e9}").parse("\u{ea}"), Err("\u{ea}"));
    assert_eq!(match_literal("\u{e9}").parse("\u{e9}\u{ea}"), Ok(("\u{ea}", "\u{e9}")));
    assert_eq!(
        match_literal("a\u{1F601}").parse("a\u{1F601}\u{1F601}"),
        Ok(("\u{1F601}", "a\u{1F601}"))
    );
}

#[test]
fn ident_takes_letters_and_hyphens() {
    assert_eq!(match_ident("a"), Ok(("", String::from("a"))));
    assert_eq!(match_ident("abc def"), Ok((" def", String::from("abc"))));
    assert_eq!(match_ident("a-b-c--"), Ok(("", String::from("a-b-c--"))));
    assert_eq!(match_ident("x1"), Ok(("1", String::from("x"))));
    assert_eq!(match_ident("name=\"v\""), Ok(("=\"v\"", String::from("name"))));
    assert_eq!(match_ident("ab_cd"), Ok(("_cd", String::from("ab"))));
}

#[test]
fn ident_takes_letters_of_any_script() {
    assert_eq!(
        match_ident("\u{e9}t\u{e9}-x1"),
        Ok(("1", String::from("\u{e9}t\u{e9}-x")))
    );
    assert_eq!(
        match_ident("\u{3b1}\u{3b2}\u{1F601}"),
        Ok(("\u{1F601}", String::from("\u{3b1}\u{3b2}")))
    );
}

#[test]
fn ident_fails_without_consuming() {
    assert_eq!(match_ident(""), Err(""));
    assert_eq!(match_ident("1abc"), Err("1abc"));
    assert_eq!(match_ident("-abc"), Err("-abc"));
    assert_eq!(match_ident(" abc"), Err(" abc"));
    assert_eq!(match_ident(">"), Err(">"));
    assert_eq!(match_ident("\u{1F601}a"), Err("\u{1F601}a"));
}

#[test]
fn pair_fails_as_its_first_parser() {
    let p = pair(match_literal("<"), match_ident);
    assert_eq!(p.parse("demo>"), Err("demo>"));
    assert_eq!(p.parse(""), Err(""));
}

#[test]
fn pair_fails_where_its_second_parser_was_tried() {
    let p = pair(match_literal("<"), match_ident);
    assert_eq!(p.parse("<1>"), Err("1>"));
    assert_eq!(p.parse("<"), Err(""));
    let tag = pair(pair(match_literal("<"), match_ident), match_literal(">"));
    assert_eq!(tag.parse("<demo-id"), Err(""));
    assert_eq!(tag.parse("<demo-id/>"), Err("/>"));
}

#[test]
fn pair_keeps_both_values_in_order() {
    let p = pair(match_ident, match_literal("="));
    assert_eq!(p.parse("key=value"), Ok(("value", (String::from("key"), "="))));
    let q = pair(match_literal("="), match_ident);
    assert_eq!(q.parse("=value;"), Ok((";", ("=", String::from("value")))));
}

#[test]
fn map_transforms_the_value_only() {
    let p = parser_fun::map(match_ident, |id: String| id.len());
    assert_eq!(p.parse("demo-id>"), Ok((">", 7)));
    let q = parser_fun::map(match_literal("<"), |s: &str| s.to_uppercase());
    assert_eq!(q.parse("<x"), Ok(("x", String::from("<"))));
}

#[test]
fn map_passes_failure_on() {
    let p = parser_fun::map(match_ident, |id: String| id.len());
    assert_eq!(p.parse("1abc"), Err("1abc"));
    assert_eq!(match_ident("1abc"), Err("1abc"));
    let q = parser_fun::map(
        pair(match_literal("<"), match_ident),
        |(_, id): (&str, String)| id,
    );
    assert_eq!(q.parse("<1"), Err("1"));
    assert_eq!(pair(match_literal("<"), match_ident).parse("<1"), Err("1"));
}

#[test]
fn zero_or_more_three_tags() {
    let tag = pair(pair(match_literal("<"), match_ident), match_literal(">"));
    assert_eq!(
        zero_or_more(tag).parse("<a><b><c>"),
        Ok((
            "",
            vec![
                (("<", String::from("a")), ">"),
                (("<", String::from("b")), ">"),
                (("<", String::from("c")), ">"),
            ]
        ))
    );
}

#[test]
fn zero_or_more_succeeds_on_no_match() {
    let p = zero_or_more(match_literal("ab"));
    assert_eq!(p.parse("xyz"), Ok(("xyz", vec![])));
    assert_eq!(p.parse(""), Ok(("", vec![])));
    let idents = zero_or_more(match_ident);
    assert_eq!(idents.parse("123"), Ok(("123", vec![])));
}

#[test]
fn zero_or_more_stops_before_the_failed_attempt() {
    let p = zero_or_more(pair(match_literal("a"), match_literal("b")));
    assert_eq!(p.parse("ababac"), Ok(("ac", vec![("a", "b"), ("a", "b")])));
    let q = zero_or_more(match_literal("ab"));
    assert_eq!(q.parse("ababa"), Ok(("a", vec!["ab", "ab"])));
}

#[test]
fn one_or_more_collects_every_match() {
    let p = one_or_more(match_literal("ab"));
    assert_eq!(p.parse("ababx"), Ok(("x", vec!["ab", "ab"])));
    assert_eq!(p.parse("ab"), Ok(("", vec!["ab"])));
}

#[test]
fn one_or_more_fails_at_the_whole_input() {
    let p = one_or_more(match_literal("ab"));
    assert_eq!(p.parse("xab"), Err("xab"));
    assert_eq!(p.parse(""), Err(""));
    // The repeated parser gives up after the `a`; the repetition reports
    // the place where it was entered.
    let inner = pair(match_literal("a"), match_literal("b"));
    assert_eq!(inner.parse("ac"), Err("c"));
    let q = one_or_more(pair(match_literal("a"), match_literal("b")));
    assert_eq!(q.parse("ac"), Err("ac"));
}

#[test]
fn one_or_more_agrees_with_zero_or_more() {
    let inputs = ["ababx", "ab", "abab", "x", "", "aab", "ab ab"];
    for input in inputs {
        let one = one_or_more(match_literal("ab")).parse(input);
        let zero = zero_or_more(match_literal("ab")).parse(input);
        match one {
            Ok(found) => assert_eq!(zero, Ok(found)),
            Err(at) => {
                assert_eq!(at, input);
                assert_eq!(zero, Ok((input, vec![])));
            }
        }
    }
}

#[test]
fn remainder_is_a_suffix_of_the_input() {
    let inputs = ["<demo-id>", "<a><b>rest", "<\u{e9}>\u{1F601}", "<a", "plain", ""];
    for input in inputs {
        let tag = pair(pair(match_literal("<"), match_ident), match_literal(">"));
        if let Ok((rest, ((open, name), close))) = tag.parse(input) {
            assert!(input.ends_with(rest));
            let consumed = format!("{}{}{}", open, name, close);
            assert_eq!(format!("{}{}", consumed, rest), input);
        }
        let tag = pair(pair(match_literal("<"), match_ident), match_literal(">"));
        let (rest, found) = zero_or_more(tag).parse(input).unwrap();
        assert!(input.ends_with(rest));
        let consumed: usize = found.iter().map(|((o, n), c)| o.len() + n.len() + c.len()).sum();
        assert_eq!(consumed + rest.len(), input.len());
    }
}

#[test]
fn failure_place_is_a_suffix_of_the_input() {
    let inputs = ["<demo-id", "<1>", "demo", "<a>", ""];
    for input in inputs {
        let tag = pair(pair(match_literal("<"), match_ident), match_literal(">"));
        if let Err(at) = tag.parse(input) {
            assert!(input.ends_with(at));
        }
    }
}

#[test]
fn parsing_twice_gives_the_same_outcome() {
    let tag = pair(pair(match_literal("<"), match_ident), match_literal(">"));
    let many = zero_or_more(tag);
    for input in ["<a><b><c>", "<a><b", "x", ""] {
        assert_eq!(many.parse(input), many.parse(input));
    }
}

#[test]
fn functions_and_closures_are_parsers() {
    assert_eq!(digit.parse("42"), Ok(("2", 4)));
    let letter_a = |input| match_letter('a', input);
    assert_eq!(letter_a.parse("ab"), Ok(("b", ())));
    let p = pair(letter_a, digit);
    assert_eq!(p.parse("a7z"), Ok(("z", ((), 7))));
    assert_eq!(p.parse("ab"), Err("b"));
    let digits = one_or_more(digit);
    assert_eq!(digits.parse("2024-"), Ok(("-", vec![2, 0, 2, 4])));
    assert_eq!(digits.parse("-"), Err("-"));
}

#[test]
fn combinators_nest() {
    let attribute = pair(pair(match_ident, match_literal("=")), match_ident);
    let spaced = parser_fun::map(
        pair(match_literal(" "), attribute),
        |(_, ((key, _), value)): (&str, ((String, &str), String))| (key, value),
    );
    let element = pair(
        pair(pair(match_literal("<"), match_ident), zero_or_more(spaced)),
        match_literal("/>"),
    );
    assert_eq!(
        element.parse("<img src=here alt=there/>tail"),
        Ok((
            "tail",
            (
                (
                    ("<", String::from("img")),
                    vec![
                        (String::from("src"), String::from("here")),
                        (String::from("alt"), String::from("there")),
                    ]
                ),
                "/>"
            )
        ))
    );
    assert_eq!(element.parse("<img src=1/>"), Err(" src=1/>"));
}

#[test]
fn map_does_not_call_its_function_on_failure() {
    let calls = Cell::new(0);
    let p = parser_fun::map(match_ident, |id: String| {
        calls.set(calls.get() + 1);
        id
    });
    assert_eq!(p.parse("1abc"), Err("1abc"));
    assert_eq!(calls.get(), 0);
    assert_eq!(p.parse("abc1"), Ok(("1", String::from("abc"))));
    assert_eq!(calls.get(), 1);
}

#[test]
fn pair_does_not_try_its_second_parser_after_a_failure() {
    let tries = Cell::new(0);
    let second = |input| {
        tries.set(tries.get() + 1);
        match_ident(input)
    };
    let p = pair(match_literal("<"), second);
    assert_eq!(p.parse("demo"), Err("demo"));
    assert_eq!(tries.get(), 0);
    assert_eq!(p.parse("<demo>"), Ok((">", ("<", String::from("demo")))));
    assert_eq!(tries.get(), 1);
}

#[test]
fn repetition_tries_once_more_than_it_matches() {
    let tries = Cell::new(0);
    let counted = |input| {
        tries.set(tries.get() + 1);
        match_letter('a', input)
    };
    let p = zero_or_more(counted);
    assert_eq!(p.parse("aaab"), Ok(("b", vec![(), (), ()])));
    assert_eq!(tries.get(), 4);
}
