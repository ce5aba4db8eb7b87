use parser_combinators::parsers;
use parser_combinators::parsers::{
    character, choice, digits, is_whitespace, join, lexeme, many, separated, string, Digits,
    Parser,
};

#[test]
fn lib_test_string() {
    let parser = string("hello");
    assert_eq!(parser.parse("hello world"), Some(((), " world")));
    assert_eq!(parser.parse("hell world"), None);
}

#[test]
fn parsers_test_string() {
    let parser = string("hello");
    assert_eq!(parser.parse("hello world"), Some(((), " world")));
    assert_eq!(parser.parse("hell world"), None);
}

#[test]
fn test_choice_macro() {
    let parser = choice(
        choice(
            parsers::map(string("zero"), |_| 0),
            parsers::map(string("one"), |_| 1),
        ),
        Digits,
    );
    assert_eq!(parser.parse("zero"), Some((0, "")));
    assert_eq!(parser.parse("one"), Some((1, "")));
    assert_eq!(parser.parse("42"), Some((42, "")));
    assert_eq!(parser.parse("hoge"), None);
}

#[test]
fn test_join_macro() {
    let parser = join(join(lexeme(Digits), lexeme(Digits)), lexeme(Digits));
    assert_eq!(parser.parse("10 20 30"), Some((((10, 20), 30), "")));
    assert_eq!(parser.parse("10 20 AA"), None);
}

#[test]
fn test_many() {
    let parser = many(lexeme(Digits));
    assert_eq!(parser.parse("10 20 30"), Some((vec![10, 20, 30], "")));
    assert_eq!(parser.parse(""), Some((vec![], "")));
    assert_eq!(parser.parse("10 hello"), Some((vec![10], " hello")));
}

#[test]
fn test_separated() {
    let parser = separated(Digits, character(','));
    assert_eq!(parser.parse("1,2,3"), Some((vec![1, 2, 3], "")));
    assert_eq!(parser.parse(""), Some((vec![], "")));
}

#[test]
fn separated_trailing_separator_fails() {
    let parser = separated(Digits, character(','));
    assert_eq!(parser.parse("1,"), None);
    assert_eq!(parser.parse("1,2,a"), None);
}

#[test]
fn separated_stops_at_missing_separator() {
    let parser = separated(Digits, character(','));
    assert_eq!(parser.parse("1,2;3"), Some((vec![1, 2], ";3")));
    assert_eq!(parser.parse("x,1"), Some((vec![], "x,1")));
}

#[test]
fn separated_with_empty_round_terminates() {
    let parser = separated(string(""), string(""));
    assert_eq!(parser.parse("abc"), Some((vec![()], "abc")));
}

#[test]
fn lexeme_keeps_trailing_whitespace() {
    let parser = lexeme(string("hello"));
    assert_eq!(parser.parse("   hello world"), Some(((), " world")));
    assert_eq!(parser.parse("\t\n\u{3000}hello"), Some(((), "")));
    assert_eq!(parser.parse("  help"), None);
}

#[test]
fn whitespace_classes() {
    assert!(is_whitespace(' '));
    assert!(is_whitespace('\t'));
    assert!(is_whitespace('\u{a0}'));
    assert!(is_whitespace('\u{2028}'));
    assert!(!is_whitespace('a'));
    assert!(!is_whitespace('\u{200b}'));
    for c in ['\u{0}', ' ', '\n', '\u{85}', '\u{1680}', '\u{2005}', 'x', '\u{3000}', 'é'] {
        assert_eq!(is_whitespace(c), c.is_whitespace());
    }
}

#[test]
fn digits_then_tail() {
    assert_eq!(digits("123abc"), Some((123, "abc")));
    assert_eq!(digits("007 x"), Some((7, " x")));
    assert_eq!(digits("42"), Some((42, "")));
    assert_eq!(digits("abc"), None);
    assert_eq!(digits(""), None);
    assert_eq!(digits("-5"), None);
}

#[test]
fn digits_at_the_limit() {
    assert_eq!(
        digits("9223372036854775807;"),
        Some((9223372036854775807, ";"))
    );
    assert_eq!(digits("9223372036854775808;"), None);
    assert_eq!(digits("99999999999999999999"), None);
}

#[test]
fn character_matches_first_char() {
    let parser = character('é');
    assert_eq!(parser.parse("éa"), Some(((), "a")));
    assert_eq!(parser.parse("aé"), None);
    assert_eq!(parser.parse(""), None);
}

#[test]
fn string_matches_non_ascii_prefix() {
    let parser = string("αβ");
    assert_eq!(parser.parse("αβγ"), Some(((), "γ")));
    assert_eq!(parser.parse("αγ"), None);
    assert_eq!(parser.parse("α"), None);
}

#[test]
fn choice_prefers_first() {
    let parser = choice(
        parsers::map(string("ab"), |_| 1),
        parsers::map(string("a"), |_| 2),
    );
    assert_eq!(parser.parse("abc"), Some((1, "c")));
    assert_eq!(parser.parse("ac"), Some((2, "c")));
    assert_eq!(parser.parse("c"), None);
}

#[test]
fn join_does_not_backtrack() {
    let parser = join(string("a"), string("b"));
    assert_eq!(parser.parse("abx"), Some((((), ()), "x")));
    assert_eq!(parser.parse("ac"), None);
}

#[test]
fn map_applies_function() {
    let parser = parsers::map(Digits, |n: i64| n * 2);
    assert_eq!(parser.parse("21rest"), Some((42, "rest")));
    assert_eq!(parser.parse("rest"), None);
}

#[test]
fn many_never_fails() {
    let parser = many(character('a'));
    assert_eq!(parser.parse(""), Some((vec![], "")));
    assert_eq!(parser.parse("bbb"), Some((vec![], "bbb")));
    assert_eq!(parser.parse("aab"), Some((vec![(), ()], "b")));
}

#[test]
fn many_of_empty_match_terminates() {
    let parser = many(string(""));
    assert_eq!(parser.parse("abc"), Some((vec![], "abc")));
}

#[test]
fn consumed_prefix_and_rest_give_input() {
    let parser = join(
        choice(parsers::map(string("key"), |_| 0), Digits),
        lexeme(character(':')),
    );
    let input = "key  : value";
    let (_, rest) = parser.parse(input).unwrap();
    assert_eq!(rest, " value");
    let consumed = &input[..input.len() - rest.len()];
    assert_eq!(format!("{}{}", consumed, rest), input);
    assert!(input.ends_with(rest));
}
