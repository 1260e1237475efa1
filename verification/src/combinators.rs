//! Parser combinators over string slices.
//!
//! A parser is any function from an input to a [`ParseResult`]: on success
//! the parsed value and the rest of the input, on failure a message. The
//! combinators build parsers from parsers. A parser handed to a combinator
//! may be any closure, so each contract says which results of the parts a
//! result of the whole is made of.

use vstd::prelude::*;
use vstd::string::*;

verus! {

/// What a parser returns: the value and the unread rest, or a message.
pub type ParseResult<'a, Output> = Result<(Output, &'a str), &'static str>;

/// Anything that parses a value of type `T` off the front of a string.
pub trait Parser<'a, T> {
    /// The inputs that `parse` may be called on.
    spec fn admits(&self, input: &'a str) -> bool;

    /// Whether `out` is a result that `parse` may return for `input`.
    spec fn yields(&self, input: &'a str, out: ParseResult<'a, T>) -> bool;

    fn parse(&self, input: &'a str) -> (out: ParseResult<'a, T>)
        requires
            self.admits(input),
        ensures
            self.yields(input, out),
    ;
}

impl<'a, F, T> Parser<'a, T> for F where F: Fn(&'a str) -> ParseResult<'a, T> {
    open spec fn admits(&self, input: &'a str) -> bool {
        call_requires(*self, (input,))
    }

    open spec fn yields(&self, input: &'a str, out: ParseResult<'a, T>) -> bool {
        call_ensures(*self, (input,), out)
    }

    fn parse(&self, input: &'a str) -> (out: ParseResult<'a, T>) {
        self(input)
    }
}

/// The parser may be called on every input.
pub open spec fn total<'a, A, P: Fn(&'a str) -> ParseResult<'a, A>>(p: P) -> bool {
    forall|i: &'a str| call_requires(p, (i,))
}

/// `p` may return `Ok((a, rest))` for `input`.
pub open spec fn succeeds<'a, A, P: Fn(&'a str) -> ParseResult<'a, A>>(
    p: P,
    input: &'a str,
    a: A,
    rest: &'a str,
) -> bool {
    call_ensures(p, (input,), Ok::<(A, &'a str), &'static str>((a, rest)))
}

/// `p` may return `Err(e)` for `input`.
pub open spec fn fails_with<'a, A, P: Fn(&'a str) -> ParseResult<'a, A>>(
    p: P,
    input: &'a str,
    e: &'static str,
) -> bool {
    call_ensures(p, (input,), Err::<(A, &'a str), &'static str>(e))
}

/// `p` may fail on `input`.
pub open spec fn fails<'a, A, P: Fn(&'a str) -> ParseResult<'a, A>>(p: P, input: &'a str) -> bool {
    exists|e: &'static str| fails_with::<A, P>(p, input, e)
}

/// Whenever the parser succeeds, it leaves less than it was given.
pub open spec fn consuming<'a, A, P: Fn(&'a str) -> ParseResult<'a, A>>(p: P) -> bool {
    forall|i: &'a str, a: A, rest: &'a str| #[trigger]
        succeeds(p, i, a, rest) ==> rest@.len() < i@.len()
}

/// What [`any_char`] returns for an input.
pub open spec fn any_char_yields<'a>(input: &'a str, out: ParseResult<'a, char>) -> bool {
    match out {
        Ok((c, rest)) => input@.len() > 0 && c == input@[0] && rest@ == input@.skip(1),
        Err(e) => input@.len() == 0 && e@ == "End of string"@,
    }
}

/// Takes the first character off the input; fails on the empty input.
pub fn any_char<'a>(input: &'a str) -> (out: ParseResult<'a, char>)
    ensures
        any_char_yields(input, out),
{
    let n = input.unicode_len();
    if n == 0 {
        Err("End of string")
    } else {
        Ok((input.get_char(0), input.substring_char(1, n)))
    }
}

/// What the parser [`literal`]`(pattern)` returns for an input.
pub open spec fn literal_yields<'a>(
    pattern: Seq<char>,
    input: &'a str,
    out: ParseResult<'a, ()>,
) -> bool {
    match out {
        Ok((_, rest)) => pattern.is_prefix_of(input@) && rest@ == input@.skip(pattern.len() as int),
        Err(e) => !pattern.is_prefix_of(input@) && e@ == "no match"@,
    }
}

/// Whether `input` starts with `pattern`.
fn starts_with(input: &str, pattern: &str) -> (b: bool)
    ensures
        b == pattern@.is_prefix_of(input@),
{
    let n = input.unicode_len();
    let m = pattern.unicode_len();
    if m > n {
        return false;
    }
    let mut i: usize = 0;
    while i < m
        invariant
            i <= m <= n,
            n == input@.len(),
            m == pattern@.len(),
            forall|k: int| 0 <= k < i ==> pattern@[k] == input@[k],
        decreases m - i,
    {
        if input.get_char(i) != pattern.get_char(i) {
            assert(pattern@[i as int] != input@.subrange(0, m as int)[i as int]);
            return false;
        }
        i += 1;
    }
    assert(pattern@ =~= input@.subrange(0, m as int));
    true
}

/// The parser that takes `pattern` off the front of the input, and fails
/// where the input does not start with it.
pub fn literal<'a>(pattern: &'static str) -> (p: impl Fn(&'a str) -> ParseResult<'a, ()>)
    ensures
        total(p),
        forall|i: &'a str, o: ParseResult<'a, ()>|
            call_ensures(p, (i,), o) ==> literal_yields(pattern@, i, o),
{
    move |input: &'a str| -> (out: ParseResult<'a, ()>)
        ensures
            literal_yields(pattern@, input, out),
        {
            if starts_with(input, pattern) {
                let n = input.unicode_len();
                let m = pattern.unicode_len();
                Ok(((), input.substring_char(m, n)))
            } else {
                Err("no match")
            }
        }
}

/// What [`map`]`(p, f)` may return: the value is `f` of a value of `p`, with
/// the rest that `p` left; a failure is a failure of `p`.
pub open spec fn map_yields<'a, A, B, P: Fn(&'a str) -> ParseResult<'a, A>, F: Fn(A) -> B>(
    p: P,
    f: F,
    input: &'a str,
    out: ParseResult<'a, B>,
) -> bool {
    match out {
        Ok((b, rest)) => exists|a: A| #[trigger] succeeds(p, input, a, rest) && call_ensures(f, (a,), b),
        Err(e) => fails_with::<A, P>(p, input, e),
    }
}

/// The parser that hands what `parser` parsed to `f`.
pub fn map<'a, A, B, P: Fn(&'a str) -> ParseResult<'a, A>, F: Fn(A) -> B>(parser: P, f: F) -> (p:
    impl Fn(&'a str) -> ParseResult<'a, B>)
    requires
        total(parser),
        forall|a: A| call_requires(f, (a,)),
    ensures
        total(p),
        forall|i: &'a str, o: ParseResult<'a, B>|
            call_ensures(p, (i,), o) ==> map_yields(parser, f, i, o),
{
    move |input: &'a str| -> (out: ParseResult<'a, B>)
        ensures
            map_yields(parser, f, input, out),
        {
            match parser(input) {
                Ok((a, rest)) => {
                    let ghost parsed = a;
                    let b = f(a);
                    let out: ParseResult<'a, B> = Ok((b, rest));
                    assert(out matches Ok((b1, r1)) && succeeds(parser, input, parsed, r1)
                        && call_ensures(f, (parsed,), b1));
                    out
                },
                Err(e) => Err(e),
            }
        }
}

/// What [`predicate`]`(p, holds)` may return: a value of `p` that `holds`
/// accepts, with the rest that `p` left; it fails where `p` fails and where
/// `holds` refuses the value.
pub open spec fn predicate_yields<
    'a,
    A,
    P: Fn(&'a str) -> ParseResult<'a, A>,
    F: Fn(&A) -> bool,
>(p: P, holds: F, input: &'a str, out: ParseResult<'a, A>) -> bool {
    match out {
        Ok((a, rest)) => succeeds(p, input, a, rest) && call_ensures(holds, (&a,), true),
        Err(e) => fails_with::<A, P>(p, input, e) || (e@ == "Predicate failed"@ && exists|
            a: A,
            rest: &'a str,
        | #[trigger] succeeds(p, input, a, rest) && call_ensures(holds, (&a,), false)),
    }
}

/// The parser that parses as `parser` does and fails where `pred_fn`
/// refuses the value.
pub fn predicate<'a, A, P: Fn(&'a str) -> ParseResult<'a, A>, F: Fn(&A) -> bool>(
    parser: P,
    pred_fn: F,
) -> (p: impl Fn(&'a str) -> ParseResult<'a, A>)
    requires
        total(parser),
        forall|a: &A| call_requires(pred_fn, (a,)),
    ensures
        total(p),
        forall|i: &'a str, o: ParseResult<'a, A>|
            call_ensures(p, (i,), o) ==> predicate_yields(parser, pred_fn, i, o),
{
    move |input: &'a str| -> (out: ParseResult<'a, A>)
        ensures
            predicate_yields(parser, pred_fn, input, out),
        {
            match parser(input) {
                Ok((a, rest)) => {
                    if pred_fn(&a) {
                        Ok((a, rest))
                    } else {
                        assert(succeeds(parser, input, a, rest) && call_ensures(
                            pred_fn,
                            (&a,),
                            false,
                        ));
                        Err("Predicate failed")
                    }
                },
                Err(e) => Err(e),
            }
        }
}

/// `first` followed by `second` may fail on `input` with `e`: either `first` fails with
/// it, or `first` succeeds and `second` fails with it on the rest.
pub open spec fn sequence_fails<
    'a,
    A,
    B,
    P: Fn(&'a str) -> ParseResult<'a, A>,
    Q: Fn(&'a str) -> ParseResult<'a, B>,
>(first: P, second: Q, input: &'a str, e: &'static str) -> bool {
    fails_with::<A, P>(first, input, e) || exists|a: A, mid: &'a str| #[trigger]
        succeeds(first, input, a, mid) && fails_with::<B, Q>(second, mid, e)
}

/// `first` followed by `second` may parse `a` and then `b` off `input` and leave `rest`.
pub open spec fn sequence_succeeds<
    'a,
    A,
    B,
    P: Fn(&'a str) -> ParseResult<'a, A>,
    Q: Fn(&'a str) -> ParseResult<'a, B>,
>(first: P, second: Q, input: &'a str, a: A, b: B, rest: &'a str) -> bool {
    exists|mid: &'a str| #[trigger] succeeds(first, input, a, mid) && succeeds(second, mid, b, rest)
}

/// What [`pair`]`(first, second)` may return: both values in order.
pub open spec fn pair_yields<
    'a,
    A,
    B,
    P: Fn(&'a str) -> ParseResult<'a, A>,
    Q: Fn(&'a str) -> ParseResult<'a, B>,
>(first: P, second: Q, input: &'a str, out: ParseResult<'a, (A, B)>) -> bool {
    match out {
        Ok((v, rest)) => sequence_succeeds(first, second, input, v.0, v.1, rest),
        Err(e) => sequence_fails(first, second, input, e),
    }
}

/// The parser that runs `parser1`, then `parser2` on the rest, and gives
/// both values.
pub fn pair<
    'a,
    A,
    B,
    P: Fn(&'a str) -> ParseResult<'a, A>,
    Q: Fn(&'a str) -> ParseResult<'a, B>,
>(parser1: P, parser2: Q) -> (p: impl Fn(&'a str) -> ParseResult<'a, (A, B)>)
    requires
        total(parser1),
        total(parser2),
    ensures
        total(p),
        forall|i: &'a str, o: ParseResult<'a, (A, B)>|
            call_ensures(p, (i,), o) ==> pair_yields(parser1, parser2, i, o),
{
    move |input: &'a str| -> (out: ParseResult<'a, (A, B)>)
        ensures
            pair_yields(parser1, parser2, input, out),
        {
            match parser1(input) {
                Ok((a, mid)) => match parser2(mid) {
                    Ok((b, rest)) => {
                        assert(succeeds(parser1, input, a, mid) && succeeds(parser2, mid, b, rest));
                        Ok(((a, b), rest))
                    },
                    Err(e) => {
                        assert(succeeds(parser1, input, a, mid) && fails_with::<B, Q>(
                            parser2,
                            mid,
                            e,
                        ));
                        Err(e)
                    },
                },
                Err(e) => Err(e),
            }
        }
}

/// What [`left`]`(first, second)` may return: the value of `first`, where `second`
/// succeeds after it.
pub open spec fn left_yields<
    'a,
    A,
    B,
    P: Fn(&'a str) -> ParseResult<'a, A>,
    Q: Fn(&'a str) -> ParseResult<'a, B>,
>(first: P, second: Q, input: &'a str, out: ParseResult<'a, A>) -> bool {
    match out {
        Ok((a, rest)) => exists|b: B| #[trigger] sequence_succeeds(first, second, input, a, b, rest),
        Err(e) => sequence_fails(first, second, input, e),
    }
}

/// The parser that runs `parser1`, then `parser2` on the rest, and keeps
/// the first value.
pub fn left<
    'a,
    A,
    B,
    P: Fn(&'a str) -> ParseResult<'a, A>,
    Q: Fn(&'a str) -> ParseResult<'a, B>,
>(parser1: P, parser2: Q) -> (p: impl Fn(&'a str) -> ParseResult<'a, A>)
    requires
        total(parser1),
        total(parser2),
    ensures
        total(p),
        forall|i: &'a str, o: ParseResult<'a, A>|
            call_ensures(p, (i,), o) ==> left_yields(parser1, parser2, i, o),
{
    move |input: &'a str| -> (out: ParseResult<'a, A>)
        ensures
            left_yields(parser1, parser2, input, out),
        {
            match parser1(input) {
                Ok((a, mid)) => match parser2(mid) {
                    Ok((b, rest)) => {
                        assert(succeeds(parser1, input, a, mid) && succeeds(parser2, mid, b, rest));
                        let out: ParseResult<'a, A> = Ok((a, rest));
                        assert(out matches Ok((a1, r1)) && sequence_succeeds(
                            parser1,
                            parser2,
                            input,
                            a1,
                            b,
                            r1,
                        ));
                        out
                    },
                    Err(e) => {
                        assert(succeeds(parser1, input, a, mid) && fails_with::<B, Q>(
                            parser2,
                            mid,
                            e,
                        ));
                        Err(e)
                    },
                },
                Err(e) => Err(e),
            }
        }
}

/// What [`right`]`(first, second)` may return: the value of `second`, run after `first`.
pub open spec fn right_yields<
    'a,
    A,
    B,
    P: Fn(&'a str) -> ParseResult<'a, A>,
    Q: Fn(&'a str) -> ParseResult<'a, B>,
>(first: P, second: Q, input: &'a str, out: ParseResult<'a, B>) -> bool {
    match out {
        Ok((b, rest)) => exists|a: A| #[trigger] sequence_succeeds(first, second, input, a, b, rest),
        Err(e) => sequence_fails(first, second, input, e),
    }
}

/// The parser that runs `parser1`, then `parser2` on the rest, and keeps
/// the second value.
pub fn right<
    'a,
    A,
    B,
    P: Fn(&'a str) -> ParseResult<'a, A>,
    Q: Fn(&'a str) -> ParseResult<'a, B>,
>(parser1: P, parser2: Q) -> (p: impl Fn(&'a str) -> ParseResult<'a, B>)
    requires
        total(parser1),
        total(parser2),
    ensures
        total(p),
        forall|i: &'a str, o: ParseResult<'a, B>|
            call_ensures(p, (i,), o) ==> right_yields(parser1, parser2, i, o),
{
    move |input: &'a str| -> (out: ParseResult<'a, B>)
        ensures
            right_yields(parser1, parser2, input, out),
        {
            match parser1(input) {
                Ok((a, mid)) => match parser2(mid) {
                    Ok((b, rest)) => {
                        assert(succeeds(parser1, input, a, mid) && succeeds(parser2, mid, b, rest));
                        assert(sequence_succeeds(parser1, parser2, input, a, b, rest));
                        Ok((b, rest))
                    },
                    Err(e) => {
                        assert(succeeds(parser1, input, a, mid) && fails_with::<B, Q>(
                            parser2,
                            mid,
                            e,
                        ));
                        Err(e)
                    },
                },
                Err(e) => Err(e),
            }
        }
}

/// What [`either`]`(first, second)` may return: a success of `first`, or, where `first`
/// fails, a success of `second`; it fails where both fail.
pub open spec fn either_yields<
    'a,
    A,
    P: Fn(&'a str) -> ParseResult<'a, A>,
    Q: Fn(&'a str) -> ParseResult<'a, A>,
>(first: P, second: Q, input: &'a str, out: ParseResult<'a, A>) -> bool {
    match out {
        Ok((a, rest)) => succeeds(first, input, a, rest) || (fails::<A, P>(first, input) && succeeds(
            second,
            input,
            a,
            rest,
        )),
        Err(e) => e@ == "Parsers unable to parse input"@ && fails::<A, P>(first, input) && fails::<
            A,
            Q,
        >(second, input),
    }
}

/// The parser that parses as `parser1` does and, where that fails, as
/// `parser2` does.
pub fn either<
    'a,
    A,
    P: Fn(&'a str) -> ParseResult<'a, A>,
    Q: Fn(&'a str) -> ParseResult<'a, A>,
>(parser1: P, parser2: Q) -> (p: impl Fn(&'a str) -> ParseResult<'a, A>)
    requires
        total(parser1),
        total(parser2),
    ensures
        total(p),
        forall|i: &'a str, o: ParseResult<'a, A>|
            call_ensures(p, (i,), o) ==> either_yields(parser1, parser2, i, o),
{
    move |input: &'a str| -> (out: ParseResult<'a, A>)
        ensures
            either_yields(parser1, parser2, input, out),
        {
            match parser1(input) {
                Ok(res) => Ok(res),
                Err(e1) => {
                    assert(fails_with::<A, P>(parser1, input, e1));
                    match parser2(input) {
                        Ok(res) => Ok(res),
                        Err(e2) => {
                            assert(fails_with::<A, Q>(parser2, input, e2));
                            Err("Parsers unable to parse input")
                        },
                    }
                },
            }
        }
}

/// What [`optional`]`(p)` may return: a value of `p`, or nothing, with the
/// input untouched, where `p` fails. It never fails.
pub open spec fn optional_yields<'a, A, P: Fn(&'a str) -> ParseResult<'a, A>>(
    p: P,
    input: &'a str,
    out: ParseResult<'a, Option<A>>,
) -> bool {
    match out {
        Ok((Some(a), rest)) => succeeds(p, input, a, rest),
        Ok((None, rest)) => rest == input && fails::<A, P>(p, input),
        Err(_) => false,
    }
}

/// The parser that parses as `parser` does where it can, and otherwise
/// takes nothing.
pub fn optional<'a, A, P: Fn(&'a str) -> ParseResult<'a, A>>(parser: P) -> (p: impl Fn(
    &'a str,
) -> ParseResult<'a, Option<A>>)
    requires
        total(parser),
    ensures
        total(p),
        forall|i: &'a str, o: ParseResult<'a, Option<A>>|
            call_ensures(p, (i,), o) ==> optional_yields(parser, i, o),
{
    move |input: &'a str| -> (out: ParseResult<'a, Option<A>>)
        ensures
            optional_yields(parser, input, out),
        {
            match parser(input) {
                Ok((a, rest)) => Ok((Some(a), rest)),
                Err(e) => {
                    assert(fails_with::<A, P>(parser, input, e));
                    Ok((None, input))
                },
            }
        }
}

/// What [`empty_or_err`]`(p)` may return: a value of `p` that used up the
/// whole input; it fails where `p` fails and where `p` leaves a rest.
pub open spec fn empty_or_err_yields<'a, A, P: Fn(&'a str) -> ParseResult<'a, A>>(
    p: P,
    input: &'a str,
    out: ParseResult<'a, A>,
) -> bool {
    match out {
        Ok((a, rest)) => rest@.len() == 0 && exists|end: &'a str| #[trigger]
            succeeds(p, input, a, end) && end@.len() == 0,
        Err(e) => fails_with::<A, P>(p, input, e) || (e@ == "expected input to be empty"@
            && exists|a: A, rest: &'a str| #[trigger]
            succeeds(p, input, a, rest) && rest@.len() > 0),
    }
}

/// The parser that parses as `parser` does and fails where that leaves a
/// part of the input unread.
pub fn empty_or_err<'a, A, P: Fn(&'a str) -> ParseResult<'a, A>>(parser: P) -> (p: impl Fn(
    &'a str,
) -> ParseResult<'a, A>)
    requires
        total(parser),
    ensures
        total(p),
        forall|i: &'a str, o: ParseResult<'a, A>|
            call_ensures(p, (i,), o) ==> empty_or_err_yields(parser, i, o),
{
    move |input: &'a str| -> (out: ParseResult<'a, A>)
        ensures
            empty_or_err_yields(parser, input, out),
        {
            match parser(input) {
                Ok((a, rest)) => {
                    if rest.unicode_len() == 0 {
                        assert(succeeds(parser, input, a, rest) && rest@.len() == 0);
                        Ok((a, rest))
                    } else {
                        assert(succeeds(parser, input, a, rest) && rest@.len() > 0);
                        Err("expected input to be empty")
                    }
                },
                Err(e) => Err(e),
            }
        }
}

/// Successive runs of `p`: run `k` parses `values[k]` off `inputs[k]` and
/// leaves `inputs[k + 1]`.
pub open spec fn repeats<'a, A, P: Fn(&'a str) -> ParseResult<'a, A>>(
    p: P,
    inputs: Seq<&'a str>,
    values: Seq<A>,
) -> bool {
    &&& inputs.len() == values.len() + 1
    &&& forall|k: int|
        #![trigger values[k]]
        0 <= k < values.len() ==> succeeds(p, inputs[k], values[k], inputs[k + 1])
}

/// `p` may parse `values` off `input` one after the other, leave `rest`,
/// and fail on `rest`.
pub open spec fn exhausts<'a, A, P: Fn(&'a str) -> ParseResult<'a, A>>(
    p: P,
    input: &'a str,
    values: Seq<A>,
    rest: &'a str,
) -> bool {
    exists|inputs: Seq<&'a str>| #[trigger]
        repeats(p, inputs, values) && inputs[0] == input && inputs.last() == rest && fails::<A, P>(
            p,
            rest,
        )
}

/// One more success of `p` extends a chain of its runs.
proof fn lemma_repeats_extends<'a, A, P: Fn(&'a str) -> ParseResult<'a, A>>(
    p: P,
    inputs: Seq<&'a str>,
    values: Seq<A>,
    a: A,
    next: &'a str,
)
    requires
        repeats(p, inputs, values),
        succeeds(p, inputs.last(), a, next),
    ensures
        repeats(p, inputs.push(next), values.push(a)),
{
    let longer = values.push(a);
    assert forall|k: int| #![trigger longer[k]] 0 <= k < longer.len() implies succeeds(
        p,
        inputs.push(next)[k],
        longer[k],
        inputs.push(next)[k + 1],
    ) by {
        if k < values.len() {
            assert(succeeds(p, inputs[k], values[k], inputs[k + 1]));
        }
    }
}

/// `p` may parse `values` off `input` one after the other and leave `rest`.
pub open spec fn parses<'a, A, P: Fn(&'a str) -> ParseResult<'a, A>>(
    p: P,
    input: &'a str,
    values: Seq<A>,
    rest: &'a str,
) -> bool {
    exists|inputs: Seq<&'a str>| #[trigger]
        repeats(p, inputs, values) && inputs[0] == input && inputs.last() == rest
}

/// Runs `parser` on `cur` and on what it leaves until it fails, and adds
/// its values to `results`: the values that were parsed between `input` and
/// `cur`.
fn run_until_failure<'a, A, P: Fn(&'a str) -> ParseResult<'a, A>>(
    parser: &P,
    input: &'a str,
    results: Vec<A>,
    cur: &'a str,
) -> (out: (Vec<A>, &'a str))
    requires
        total(*parser),
        consuming(*parser),
        parses(*parser, input, results@, cur),
    ensures
        exhausts(*parser, input, out.0@, out.1),
        out.0@.len() >= results@.len(),
{
    let mut results = results;
    let mut cur = cur;
    let ghost mut inputs = choose|inputs: Seq<&'a str>| #[trigger]
        repeats(*parser, inputs, results@) && inputs[0] == input && inputs.last() == cur;
    let ghost before = results@.len();
    loop
        invariant
            total(*parser),
            consuming(*parser),
            repeats(*parser, inputs, results@),
            inputs[0] == input,
            inputs.last() == cur,
            results@.len() >= before,
        ensures
            fails::<A, P>(*parser, cur),
        decreases cur@.len(),
    {
        match parser(cur) {
            Ok((a, next)) => {
                proof {
                    assert(succeeds(*parser, cur, a, next));
                    lemma_repeats_extends(*parser, inputs, results@, a, next);
                    inputs = inputs.push(next);
                }
                results.push(a);
                cur = next;
            },
            Err(e) => {
                assert(fails_with::<A, P>(*parser, cur, e));
                break ;
            },
        }
    }
    assert(repeats(*parser, inputs, results@) && inputs[0] == input && inputs.last() == cur);
    (results, cur)
}

/// What [`zero_or_more`]`(p)` may return: the values of `p`, run until it
/// fails. It never fails.
pub open spec fn zero_or_more_yields<'a, A, P: Fn(&'a str) -> ParseResult<'a, A>>(
    p: P,
    input: &'a str,
    out: ParseResult<'a, Vec<A>>,
) -> bool {
    match out {
        Ok((values, rest)) => exhausts(p, input, values@, rest),
        Err(_) => false,
    }
}

/// The parser that runs `parser` until it fails and gives the values in
/// order. `parser` has to use up input whenever it succeeds.
pub fn zero_or_more<'a, A, P: Fn(&'a str) -> ParseResult<'a, A>>(parser: P) -> (p: impl Fn(
    &'a str,
) -> ParseResult<'a, Vec<A>>)
    requires
        total(parser),
        consuming(parser),
    ensures
        total(p),
        forall|i: &'a str, o: ParseResult<'a, Vec<A>>|
            call_ensures(p, (i,), o) ==> zero_or_more_yields(parser, i, o),
{
    move |input: &'a str| -> (out: ParseResult<'a, Vec<A>>)
        ensures
            zero_or_more_yields(parser, input, out),
        {
            let results: Vec<A> = Vec::new();
            proof {
                let start = seq![input];
                assert(repeats(parser, start, results@) && start[0] == input && start.last()
                    == input);
            }
            let (results, rest) = run_until_failure(&parser, input, results, input);
            Ok((results, rest))
        }
}

/// What [`one_or_more`]`(p)` may return: the values of `p`, run until it
/// fails, at least one; it fails where the first run fails.
pub open spec fn one_or_more_yields<'a, A, P: Fn(&'a str) -> ParseResult<'a, A>>(
    p: P,
    input: &'a str,
    out: ParseResult<'a, Vec<A>>,
) -> bool {
    match out {
        Ok((values, rest)) => values@.len() >= 1 && exhausts(p, input, values@, rest),
        Err(e) => fails_with::<A, P>(p, input, e),
    }
}

/// The parser that runs `parser` until it fails and gives the values in
/// order, and that fails where the first run does. `parser` has to use up
/// input whenever it succeeds.
pub fn one_or_more<'a, A, P: Fn(&'a str) -> ParseResult<'a, A>>(parser: P) -> (p: impl Fn(
    &'a str,
) -> ParseResult<'a, Vec<A>>)
    requires
        total(parser),
        consuming(parser),
    ensures
        total(p),
        forall|i: &'a str, o: ParseResult<'a, Vec<A>>|
            call_ensures(p, (i,), o) ==> one_or_more_yields(parser, i, o),
{
    move |input: &'a str| -> (out: ParseResult<'a, Vec<A>>)
        ensures
            one_or_more_yields(parser, input, out),
        {
            match parser(input) {
                Ok((a, next)) => {
                    let mut results: Vec<A> = Vec::new();
                    proof {
                        assert(succeeds(parser, input, a, next));
                        lemma_repeats_extends(parser, seq![input], results@, a, next);
                        let chain = seq![input].push(next);
                        assert(repeats(parser, chain, results@.push(a)) && chain[0] == input
                            && chain.last() == next);
                    }
                    results.push(a);
                    let (results, rest) = run_until_failure(&parser, input, results, next);
                    Ok((results, rest))
                },
                Err(e) => Err(e),
            }
        }
}

} // verus!
