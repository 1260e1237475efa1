use spreadsheet::combinators::{
    any_char, either, empty_or_err, left, literal, one_or_more, optional, pair, predicate,
    right, zero_or_more, Parser,
};

#[test]
fn literal_smoketest() {
    let p = literal("a");
    assert_eq!(p.parse("alpha"), Ok(((), "lpha")));
    assert!(p.parse("this wont match").is_err());
}

#[test]
fn pair_smoketest() {
    let p = pair(literal("a"), literal("l"));

    assert_eq!(p.parse("alpha"), Ok((((), ()), "pha")));
    assert!(p.parse("a not followed by l").is_err());
}

#[test]
fn predicate_smoketest() {
    let p = predicate(any_char, |c| *c == 'a');

    assert_eq!(p.parse("alpha"), Ok(('a', "lpha")));
    assert!(p.parse("beta").is_err());
}

#[test]
fn map_smoketest() {
    let p = spreadsheet::combinators::map(any_char, |c| c.is_numeric());

    assert_eq!(p.parse("alpha"), Ok((false, "lpha")));
    assert_eq!(p.parse("123"), Ok((true, "23")));
}

#[test]
fn zero_or_more_smoketest() {
    let p = zero_or_more(literal("a"));

    assert_eq!(p.parse("bcd"), Ok((vec![], "bcd")));
    assert_eq!(p.parse("aaabcd"), Ok((vec![(), (), ()], "bcd")));
}

#[test]
fn one_or_more_smoketest() {
    let p = one_or_more(literal("a"));

    assert!(p.parse("bcd").is_err());
    assert_eq!(p.parse("aaabcd"), Ok((vec![(), (), ()], "bcd")));
}

#[test]
fn either_smoketest() {
    let p = either(literal("a"), literal("b"));

    assert!(p.parse("cd").is_err());
    assert_eq!(p.parse("abcd"), Ok(((), "bcd")));
    assert_eq!(p.parse("bcd"), Ok(((), "cd")));
}

#[test]
fn left_smoketest() {
    let p = left(any_char, literal("b"));

    assert!(p.parse("bcd").is_err());
    assert_eq!(p.parse("abc"), Ok(('a', "c")));
}

#[test]
fn right_smoketest() {
    let p = right(any_char, literal("b"));

    assert!(p.parse("bcd").is_err());
    assert_eq!(p.parse("abc"), Ok(((), "c")));
}

#[test]
fn optional_smoketest() {
    let p = optional(literal("a"));
    assert_eq!(p.parse("abc"), Ok((Some(()), "bc")));
    assert_eq!(p.parse("bc"), Ok((None, "bc")));
}

#[test]
fn empty_or_err_smoketest() {
    let p = empty_or_err(literal("a"));
    assert_eq!(p.parse("a"), Ok(((), "")));
    assert!(p.parse("ab").is_err());
}

#[test]
fn failures_carry_their_messages() {
    assert_eq!(any_char(""), Err("End of string"));
    assert_eq!(literal("ab").parse("ba"), Err("no match"));
    assert_eq!(
        predicate(any_char, |c| *c == 'a').parse("b"),
        Err("Predicate failed")
    );
    assert_eq!(
        predicate(any_char, |c| *c == 'a').parse(""),
        Err("End of string")
    );
    assert_eq!(
        either(literal("a"), literal("b")).parse("c"),
        Err("Parsers unable to parse input")
    );
    assert_eq!(
        empty_or_err(literal("a")).parse("ab"),
        Err("expected input to be empty")
    );
    assert_eq!(empty_or_err(literal("a")).parse("b"), Err("no match"));
    assert_eq!(pair(literal("a"), any_char).parse("a"), Err("End of string"));
    assert_eq!(left(literal("a"), literal("b")).parse("ac"), Err("no match"));
    assert_eq!(right(literal("a"), literal("b")).parse("c"), Err("no match"));
    assert_eq!(one_or_more(literal("a")).parse(""), Err("no match"));
}

#[test]
fn characters_beyond_ascii_are_taken_whole() {
    assert_eq!(any_char("éa"), Ok(('é', "a")));
    assert_eq!(literal("é").parse("éa"), Ok(((), "a")));
    assert_eq!(
        zero_or_more(any_char).parse("日本"),
        Ok((vec!['日', '本'], ""))
    );
    assert_eq!(optional(any_char).parse(""), Ok((None, "")));
}
