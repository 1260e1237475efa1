//! The grammar of a cell's text.
//!
//! ```text
//! Cell    ::= Formula | Number | Text
//! Formula ::= "=" Expr
//! Expr    ::= Term   (('+' | '-') Term)*
//! Term    ::= Factor (('*' | '/') Factor)*
//! Factor  ::= ['-'] (Value | '(' Expr ')')
//! Value   ::= Number | Coord
//! Coord   ::= Letters Digits
//! Number  ::= ['-'] Digits ['.' Digits]
//! ```
//!
//! Each rule is a spec function on the characters of the input, and a parser
//! that is proved to compute it.

use crate::combinators::{
    any_char, any_char_yields, consuming, either, either_yields, empty_or_err,
    empty_or_err_yields, fails, fails_with, literal, literal_yields, map_yields,
    one_or_more, one_or_more_yields, optional, optional_yields, predicate, predicate_yields,
    repeats, succeeds, zero_or_more, zero_or_more_yields, ParseResult,
};
use crate::expr::{BinaryNode, BinaryOp, Expr, ExprTree, UnaryNode, UnaryOp, ValueNode};
use crate::number::{
    decimal_bits, ieee_mul, is_readable, numeral_fits, Number, MINUS_ONE_BITS,
};
use vstd::prelude::*;
use vstd::string::*;

verus! {

/// An ASCII decimal digit.
pub open spec fn is_digit(c: char) -> bool {
    '0' <= c && c <= '9'
}

/// An ASCII letter, of either case.
pub open spec fn is_letter(c: char) -> bool {
    ('a' <= c && c <= 'z') || ('A' <= c && c <= 'Z')
}

/// The number of characters at the front of `s` that satisfy `pred`.
pub open spec fn run_len(s: Seq<char>, pred: spec_fn(char) -> bool) -> nat
    decreases s.len(),
{
    if s.len() > 0 && pred(s[0]) {
        1 + run_len(s.skip(1), pred)
    } else {
        0
    }
}

/// The longest run of characters at the front of `s` that satisfy `pred`,
/// and what follows it; `None` where the run is empty.
pub open spec fn spec_run(s: Seq<char>, pred: spec_fn(char) -> bool) -> Option<
    (Seq<char>, Seq<char>),
> {
    let n = run_len(s, pred) as int;
    if n == 0 {
        None
    } else {
        Some((s.take(n), s.skip(n)))
    }
}

/// `Digits`: one or more digits.
pub open spec fn spec_digits(s: Seq<char>) -> Option<(Seq<char>, Seq<char>)> {
    spec_run(s, |c: char| is_digit(c))
}

/// `Letters`: one or more letters.
pub open spec fn spec_letters(s: Seq<char>) -> Option<(Seq<char>, Seq<char>)> {
    spec_run(s, |c: char| is_letter(c))
}

/// What a parser's result says about the input, messages aside.
pub open spec fn outcome<'a, T: View>(out: ParseResult<'a, T>) -> Option<(T::V, Seq<char>)> {
    match out {
        Ok((v, rest)) => Some((v@, rest@)),
        Err(_) => None,
    }
}

/// A run is no longer than the text it is a run of.
pub proof fn lemma_run_len_bound(s: Seq<char>, pred: spec_fn(char) -> bool)
    ensures
        run_len(s, pred) <= s.len(),
    decreases s.len(),
{
    if s.len() > 0 && pred(s[0]) {
        lemma_run_len_bound(s.skip(1), pred);
    }
}

/// `p` takes one character that satisfies `pred` off its input, and fails
/// where there is none.
spec fn char_parser<'a, P: Fn(&'a str) -> ParseResult<'a, char>>(
    p: P,
    pred: spec_fn(char) -> bool,
) -> bool {
    forall|i: &'a str, o: ParseResult<'a, char>| #[trigger]
        call_ensures(p, (i,), o) ==> match o {
            Ok((c, rest)) => i@.len() > 0 && c == i@[0] && pred(c) && rest@ == i@.skip(1),
            Err(_) => i@.len() == 0 || !pred(i@[0]),
        }
}

/// Repeating a one-character parser until it fails takes the longest run.
proof fn lemma_repeats_is_run<'a, P: Fn(&'a str) -> ParseResult<'a, char>>(
    p: P,
    pred: spec_fn(char) -> bool,
    inputs: Seq<&'a str>,
    values: Seq<char>,
)
    requires
        char_parser(p, pred),
        repeats(p, inputs, values),
        fails::<char, P>(p, inputs.last()),
    ensures
        run_len(inputs[0]@, pred) == values.len(),
        values == inputs[0]@.take(values.len() as int),
        inputs.last()@ == inputs[0]@.skip(values.len() as int),
    decreases values.len(),
{
    let first = inputs[0];
    if values.len() == 0 {
        let e = choose|e: &'static str| fails_with::<char, P>(p, first, e);
        assert(call_ensures(p, (first,), Err::<(char, &'a str), &'static str>(e)));
        assert(values =~= first@.take(0));
        assert(first@ =~= first@.skip(0));
    } else {
        let tail_inputs = inputs.skip(1);
        let tail_values = values.skip(1);
        assert(succeeds(p, inputs[0], values[0], inputs[1]));
        assert(call_ensures(p, (first,), Ok::<(char, &'a str), &'static str>((values[0], inputs[1]))));
        assert forall|k: int|
            #![trigger tail_values[k]]
            0 <= k < tail_values.len() implies succeeds(
            p,
            tail_inputs[k],
            tail_values[k],
            tail_inputs[k + 1],
        ) by {
            assert(values[k + 1] == tail_values[k]);
            assert(succeeds(p, inputs[k + 1], values[k + 1], inputs[k + 2]));
        }
        assert(tail_inputs.last() == inputs.last());
        lemma_repeats_is_run(p, pred, tail_inputs, tail_values);
        let n = values.len() as int;
        assert(tail_inputs[0]@ == first@.skip(1));
        lemma_run_len_bound(first@.skip(1), pred);
        assert(n <= first@.len());
        assert(values =~= first@.take(n)) by {
            assert forall|k: int| 0 <= k < n implies values[k] == first@.take(n)[k] by {
                if k > 0 {
                    assert(values[k] == tail_values[k - 1]);
                    assert(tail_values[k - 1] == first@.skip(1).take(n - 1)[k - 1]);
                }
            }
        }
        assert(first@.skip(1).skip(n - 1) =~= first@.skip(n));
    }
}

/// `String::push` of std: appends the character to the end of the string.
#[verifier::external_body]
fn push_char(s: &mut String, c: char)
    ensures
        final(s)@ == old(s)@.push(c),
{
    s.push(c)
}

/// The string made of the characters of `chars`.
fn collect_string(chars: &Vec<char>) -> (s: String)
    ensures
        s@ == chars@,
{
    let mut s = String::new();
    let mut i: usize = 0;
    while i < chars.len()
        invariant
            i <= chars.len(),
            s@ == chars@.take(i as int),
        decreases chars.len() - i,
    {
        push_char(&mut s, chars[i]);
        assert(chars@.take(i as int).push(chars@[i as int]) =~= chars@.take(i + 1));
        i += 1;
    }
    assert(chars@.take(chars.len() as int) =~= chars@);
    s
}

/// The message with which a run fails: the input is empty, or its first
/// character is refused.
pub open spec fn run_message(s: Seq<char>) -> Seq<char> {
    if s.len() == 0 {
        "End of string"@
    } else {
        "Predicate failed"@
    }
}

/// Parses a run of characters that satisfy `holds`.
fn run<'a, F: Fn(&char) -> bool>(input: &'a str, holds: F, Ghost(pred): Ghost<
    spec_fn(char) -> bool,
>) -> (out: ParseResult<'a, String>)
    requires
        forall|c: &char| call_requires(holds, (c,)),
        forall|c: &char, b: bool| call_ensures(holds, (c,), b) ==> b == pred(*c),
    ensures
        outcome(out) == spec_run(input@, pred),
        out matches Err(e) ==> e@ == run_message(input@),
{
    let one = predicate(any_char, holds);
    assert(char_parser(one, pred)) by {
        assert forall|i: &'a str, o: ParseResult<'a, char>| #[trigger]
            call_ensures(one, (i,), o) implies match o {
            Ok((c, rest)) => i@.len() > 0 && c == i@[0] && pred(c) && rest@ == i@.skip(1),
            Err(_) => i@.len() == 0 || !pred(i@[0]),
        } by {
            assert(predicate_yields(any_char, holds, i, o));
            match o {
                Ok((c, rest)) => {
                    assert(any_char_yields(i, Ok((c, rest))));
                },
                Err(e) => {
                    if !fails_with::<char, _>(any_char, i, e) {
                        let (c, rest) = choose|c: char, rest: &'a str| #[trigger]
                            succeeds(any_char, i, c, rest) && call_ensures(holds, (&c,), false);
                        assert(any_char_yields(i, Ok((c, rest))));
                    } else {
                        assert(any_char_yields(i, Err(e)));
                    }
                },
            }
        }
    }
    assert(consuming(one)) by {
        assert forall|i: &'a str, c: char, rest: &'a str| #[trigger]
            succeeds(one, i, c, rest) implies rest@.len() < i@.len() by {
            assert(call_ensures(one, (i,), Ok::<(char, &'a str), &'static str>((c, rest))));
        }
    }
    let many = one_or_more(one);
    let found = many(input);
    assert(one_or_more_yields(one, input, found));
    match found {
        Ok((chars, rest)) => {
            proof {
                let inputs = choose|inputs: Seq<&'a str>| #[trigger]
                    repeats(one, inputs, chars@) && inputs[0] == input && inputs.last() == rest
                        && fails::<char, _>(one, rest);
                lemma_repeats_is_run(one, pred, inputs, chars@);
            }
            Ok((collect_string(&chars), rest))
        },
        Err(e) => {
            proof {
                assert(call_ensures(one, (input,), Err::<(char, &'a str), &'static str>(e)));
                assert(predicate_yields(any_char, holds, input, Err(e)));
                if fails_with::<char, _>(any_char, input, e) {
                    assert(any_char_yields(input, Err(e)));
                } else {
                    let (c, rest) = choose|c: char, rest: &'a str| #[trigger]
                        succeeds(any_char, input, c, rest) && call_ensures(holds, (&c,), false);
                    assert(any_char_yields(input, Ok((c, rest))));
                }
            }
            Err(e)
        },
    }
}

/// `Digits`: parses one or more digits.
pub fn digits<'a>(input: &'a str) -> (out: ParseResult<'a, String>)
    ensures
        outcome(out) == spec_digits(input@),
        out matches Err(e) ==> e@ == run_message(input@),
{
    let holds = |c: &char| -> (b: bool)
        ensures
            b == is_digit(*c),
        { *c >= '0' && *c <= '9' };
    run(input, holds, Ghost(|c: char| is_digit(c)))
}

/// `Letters`: parses one or more letters.
pub fn letters<'a>(input: &'a str) -> (out: ParseResult<'a, String>)
    ensures
        outcome(out) == spec_letters(input@),
        out matches Err(e) ==> e@ == run_message(input@),
{
    let holds = |c: &char| -> (b: bool)
        ensures
            b == is_letter(*c),
        { (*c >= 'a' && *c <= 'z') || (*c >= 'A' && *c <= 'Z') };
    run(input, holds, Ghost(|c: char| is_letter(c)))
}

/// Every character of a run satisfies the predicate of the run.
pub proof fn lemma_run_holds(s: Seq<char>, pred: spec_fn(char) -> bool, k: int)
    requires
        0 <= k < run_len(s, pred),
    ensures
        k < s.len(),
        pred(s[k]),
    decreases s.len(),
{
    if k > 0 {
        lemma_run_holds(s.skip(1), pred, k - 1);
    }
}

/// The place of a letter in the alphabet, from 1, whatever its case.
pub open spec fn letter_rank(c: char) -> int {
    if 'a' <= c && c <= 'z' {
        c as int - 'a' as int + 1
    } else {
        c as int - 'A' as int + 1
    }
}

/// The number that letters spell in base 26 with the digits `A` = 1 to
/// `Z` = 26.
pub open spec fn letters_value(letters: Seq<char>) -> int
    decreases letters.len(),
{
    if letters.len() == 0 {
        0
    } else {
        letters_value(letters.drop_last()) * 26 + letter_rank(letters.last())
    }
}

/// The number that decimal digits spell.
pub open spec fn decimal_value(digits: Seq<char>) -> int
    decreases digits.len(),
{
    if digits.len() == 0 {
        0
    } else {
        decimal_value(digits.drop_last()) * 10 + (digits.last() as int - '0' as int)
    }
}

/// All characters of `s` are letters.
pub open spec fn all_letters(s: Seq<char>) -> bool {
    forall|k: int| 0 <= k < s.len() ==> is_letter(#[trigger] s[k])
}

/// All characters of `s` are digits.
pub open spec fn all_digits(s: Seq<char>) -> bool {
    forall|k: int| 0 <= k < s.len() ==> is_digit(#[trigger] s[k])
}

/// Letters spell a number that is at least their count.
proof fn lemma_letters_count(letters: Seq<char>)
    requires
        all_letters(letters),
    ensures
        letters.len() <= letters_value(letters),
    decreases letters.len(),
{
    if letters.len() > 0 {
        assert(is_letter(letters.last()));
        assert forall|k: int| 0 <= k < letters.drop_last().len() implies is_letter(
            #[trigger] letters.drop_last()[k],
        ) by {
            assert(letters.drop_last()[k] == letters[k]);
        }
        lemma_letters_count(letters.drop_last());
    }
}

/// The value of letters is at least the value of any of their prefixes.
proof fn lemma_letters_value_grows(letters: Seq<char>, n: int)
    requires
        all_letters(letters),
        0 <= n <= letters.len(),
    ensures
        n <= letters_value(letters.take(n)) <= letters_value(letters),
    decreases letters.len() - n,
{
    assert forall|k: int| 0 <= k < n implies is_letter(#[trigger] letters.take(n)[k]) by {
        assert(letters.take(n)[k] == letters[k]);
    }
    lemma_letters_count(letters.take(n));
    if n < letters.len() {
        lemma_letters_value_grows(letters, n + 1);
        assert(letters.take(n + 1).drop_last() =~= letters.take(n));
        assert(is_letter(letters[n]));
        assert(letters.take(n + 1).last() == letters[n]);
    } else {
        assert(letters.take(n) =~= letters);
    }
}

/// Digits spell no negative number.
proof fn lemma_decimal_nonnegative(digits: Seq<char>)
    requires
        all_digits(digits),
    ensures
        0 <= decimal_value(digits),
    decreases digits.len(),
{
    if digits.len() > 0 {
        assert(is_digit(digits.last()));
        assert forall|k: int| 0 <= k < digits.drop_last().len() implies is_digit(
            #[trigger] digits.drop_last()[k],
        ) by {
            assert(digits.drop_last()[k] == digits[k]);
        }
        lemma_decimal_nonnegative(digits.drop_last());
    }
}

/// The value of digits is at least the value of any of their prefixes.
proof fn lemma_decimal_value_grows(digits: Seq<char>, n: int)
    requires
        all_digits(digits),
        0 <= n <= digits.len(),
    ensures
        0 <= decimal_value(digits.take(n)) <= decimal_value(digits),
    decreases digits.len() - n,
{
    assert forall|k: int| 0 <= k < n implies is_digit(#[trigger] digits.take(n)[k]) by {
        assert(digits.take(n)[k] == digits[k]);
    }
    lemma_decimal_nonnegative(digits.take(n));
    if n < digits.len() {
        lemma_decimal_value_grows(digits, n + 1);
        assert(digits.take(n + 1).drop_last() =~= digits.take(n));
        assert(is_digit(digits[n]));
        assert(digits.take(n + 1).last() == digits[n]);
    } else {
        assert(digits.take(n) =~= digits);
    }
}

/// The zero-based column that letters name, `None` where it does not fit
/// the machine's word.
fn column_of(letters: &str) -> (col: Option<usize>)
    requires
        letters@.len() > 0,
        all_letters(letters@),
    ensures
        col == if letters_value(letters@) - 1 <= usize::MAX {
            Some((letters_value(letters@) - 1) as usize)
        } else {
            None::<usize>
        },
{
    let n = letters.unicode_len();
    let mut col: usize = 0;
    let mut i: usize = 0;
    while i < n
        invariant
            i <= n,
            n == letters@.len(),
            all_letters(letters@),
            i > 0 ==> col == letters_value(letters@.take(i as int)) - 1,
        decreases n - i,
    {
        let c = letters.get_char(i);
        assert(is_letter(letters@[i as int]));
        let rank: usize = if c >= 'a' && c <= 'z' {
            (c as u32 - 'a' as u32 + 1) as usize
        } else {
            (c as u32 - 'A' as u32 + 1) as usize
        };
        proof {
            assert(rank == letter_rank(c));
            assert(letters@.take(i + 1).drop_last() =~= letters@.take(i as int));
            assert(letters@.take(i + 1).last() == c);
            assert(letters_value(letters@.take(0)) == 0);
            assert(letters_value(letters@.take(i + 1)) == letters_value(letters@.take(i as int))
                * 26 + rank);
            lemma_letters_value_grows(letters@, i + 1);
        }
        if i == 0 {
            col = rank - 1;
        } else {
            // One more letter: (col + 1) * 26 + rank - 1.
            let next = match col.checked_mul(26) {
                Some(scaled) => scaled.checked_add(rank + 25),
                None => None,
            };
            match next {
                Some(v) => {
                    col = v;
                },
                None => {
                    return None;
                },
            }
        }
        i += 1;
    }
    proof {
        assert(letters@.take(n as int) =~= letters@);
    }
    Some(col)
}

/// The zero-based column that letters name: `A` is column 0, `Z` column 25,
/// `AA` column 26.
pub fn letters_to_col(letters: &str) -> (col: usize)
    requires
        letters@.len() > 0,
        all_letters(letters@),
        letters_value(letters@) - 1 <= usize::MAX,
    ensures
        col == letters_value(letters@) - 1,
{
    proof {
        lemma_letters_count(letters@);
    }
    match column_of(letters) {
        Some(col) => col,
        None => 0,
    }
}

/// `Digits` read as a number that fits the machine's word.
pub open spec fn spec_natural_number(s: Seq<char>) -> Option<(usize, Seq<char>)> {
    match spec_digits(s) {
        Some((digits, rest)) => if decimal_value(digits) <= usize::MAX {
            Some((decimal_value(digits) as usize, rest))
        } else {
            None
        },
        None => None,
    }
}

/// What a parser of plain values returns, messages aside.
pub open spec fn plain<'a, T>(out: ParseResult<'a, T>) -> Option<(T, Seq<char>)> {
    match out {
        Ok((v, rest)) => Some((v, rest@)),
        Err(_) => None,
    }
}

/// The characters of a run of digits are digits.
proof fn lemma_digits_are_digits(s: Seq<char>)
    ensures
        spec_digits(s) matches Some((digits, _)) ==> all_digits(digits) && digits.len() > 0,
{
    let pred = |c: char| is_digit(c);
    if spec_digits(s) is Some {
        let n = run_len(s, pred) as int;
        lemma_run_len_bound(s, pred);
        assert forall|k: int| 0 <= k < n implies is_digit(#[trigger] s.take(n)[k]) by {
            lemma_run_holds(s, pred, k);
        }
    }
}

/// The characters of a run of letters are letters.
proof fn lemma_letters_are_letters(s: Seq<char>)
    ensures
        spec_letters(s) matches Some((letters, _)) ==> all_letters(letters) && letters.len() > 0,
{
    let pred = |c: char| is_letter(c);
    if spec_letters(s) is Some {
        let n = run_len(s, pred) as int;
        lemma_run_len_bound(s, pred);
        assert forall|k: int| 0 <= k < n implies is_letter(#[trigger] s.take(n)[k]) by {
            lemma_run_holds(s, pred, k);
        }
    }
}

/// Parses digits as a number; fails where there are none or the number
/// does not fit the machine's word.
fn natural_number<'a>(input: &'a str) -> (out: ParseResult<'a, usize>)
    ensures
        plain(out) == spec_natural_number(input@),
{
    let (text, rest) = match digits(input) {
        Ok(found) => found,
        Err(e) => {
            return Err(e);
        },
    };
    proof {
        lemma_digits_are_digits(input@);
    }
    let n = text.as_str().unicode_len();
    let mut value: usize = 0;
    let mut i: usize = 0;
    while i < n
        invariant
            i <= n,
            n == text@.len(),
            all_digits(text@),
            spec_digits(input@) == Some((text@, rest@)),
            value == decimal_value(text@.take(i as int)),
        decreases n - i,
    {
        let c = text.as_str().get_char(i);
        assert(is_digit(text@[i as int]));
        let digit: usize = (c as u32 - '0' as u32) as usize;
        proof {
            assert(text@.take(i + 1).drop_last() =~= text@.take(i as int));
            assert(text@.take(i + 1).last() == c);
            assert(decimal_value(text@.take(i + 1)) == decimal_value(text@.take(i as int)) * 10
                + digit);
            lemma_decimal_value_grows(text@, i + 1);
        }
        let next = match value.checked_mul(10) {
            Some(scaled) => scaled.checked_add(digit),
            None => None,
        };
        match next {
            Some(v) => {
                value = v;
            },
            None => {
                return Err("number too large");
            },
        }
        i += 1;
    }
    assert(text@.take(n as int) =~= text@);
    Ok((value, rest))
}

/// `Coord`: letters for the column and digits for the one-based row. There
/// is no row 0, and a coordinate that does not fit the machine's word is
/// none.
pub open spec fn spec_coord(s: Seq<char>) -> Option<(Expr, Seq<char>)> {
    match spec_letters(s) {
        Some((letters, after)) => match spec_natural_number(after) {
            Some((number, rest)) => if letters_value(letters) - 1 <= usize::MAX && number >= 1 {
                Some(
                    (
                        Expr::Coord((number - 1) as usize, (letters_value(letters) - 1) as usize),
                        rest,
                    ),
                )
            } else {
                None
            },
            None => None,
        },
        None => None,
    }
}

/// Parses a coordinate such as `A1` or `ab23`.
fn coord<'a>(input: &'a str) -> (out: ParseResult<'a, ValueNode>)
    ensures
        outcome(out) == spec_coord(input@),
{
    let (ltrs, input1) = match letters(input) {
        Ok(found) => found,
        Err(e) => {
            return Err(e);
        },
    };
    proof {
        lemma_letters_are_letters(input@);
    }
    let col = column_of(ltrs.as_str());
    let (num, rest) = match natural_number(input1) {
        Ok(found) => found,
        Err(e) => {
            return Err(e);
        },
    };
    match col {
        Some(col) => {
            if num >= 1 {
                Ok((ValueNode::Coord(num - 1, col), rest))
            } else {
                Err("there is no row 0")
            }
        },
        None => Err("column too large"),
    }
}

/// Whether `s` starts with the character `c`.
pub open spec fn leads(s: Seq<char>, c: char) -> bool {
    s.len() > 0 && s[0] == c
}

/// `s` without a leading `c`, where it has one.
pub open spec fn after(s: Seq<char>, c: char) -> Seq<char> {
    if leads(s, c) {
        s.skip(1)
    } else {
        s
    }
}

/// Takes the one-character `pattern` off the input where it stands there.
fn symbol<'a>(pattern: &'static str, input: &'a str) -> (out: (bool, &'a str))
    requires
        pattern@.len() == 1,
    ensures
        out.0 == leads(input@, pattern@[0]),
        out.1@ == after(input@, pattern@[0]),
{
    let sign = literal(pattern);
    let maybe = optional(sign);
    let found = maybe(input);
    assert(optional_yields(sign, input, found));
    match found {
        Ok((Some(_), rest)) => {
            assert(literal_yields(pattern@, input, Ok(((), rest))));
            assert(pattern@[0] == input@.subrange(0, 1)[0]);
            (true, rest)
        },
        Ok((None, rest)) => {
            proof {
                let e = choose|e: &'static str| fails_with::<(), _>(sign, input, e);
                assert(literal_yields(pattern@, input, Err(e)));
                if leads(input@, pattern@[0]) {
                    assert(pattern@ =~= input@.subrange(0, 1));
                }
            }
            (false, rest)
        },
        Err(_) => (false, input),
    }
}

/// The digits of a number with its fraction, as one text.
pub open spec fn spec_numeral(s: Seq<char>) -> Option<(Seq<char>, Seq<char>)> {
    match spec_digits(s) {
        Some((whole, rest)) => if leads(rest, '.') {
            match spec_digits(rest.skip(1)) {
                Some((fraction, end)) => Some((whole + seq!['.'] + fraction, end)),
                None => None,
            }
        } else {
            Some((whole, rest))
        },
        None => None,
    }
}

/// `Number`: an optional minus sign, digits, and an optional fraction. The
/// value is the double nearest to the numeral, times `-1` under a minus
/// sign. The one numeral that is no number is one longer than the decimal
/// conversion bears.
pub open spec fn spec_rational_number(s: Seq<char>) -> Option<(Number, Seq<char>)> {
    match spec_numeral(after(s, '-')) {
        Some((text, rest)) => if numeral_fits(text.len()) {
            Some(
                (
                    if leads(s, '-') {
                        Number { bits: ieee_mul(decimal_bits(text), MINUS_ONE_BITS) }
                    } else {
                        Number { bits: decimal_bits(text) }
                    },
                    rest,
                ),
            )
        } else {
            None
        },
        None => None,
    }
}

/// The text of a number is a numeral that the decimal conversion reads: it
/// has a digit, and no dot but the one before its fraction.
pub proof fn lemma_numeral_is_readable(s: Seq<char>)
    ensures
        spec_numeral(s) matches Some((text, _)) ==> is_readable(text),
{
    lemma_digits_are_digits(s);
    if let Some((whole, rest)) = spec_digits(s) {
        assert(is_digit(whole[0]));
        if leads(rest, '.') {
            lemma_digits_are_digits(rest.skip(1));
            if let Some((fraction, _)) = spec_digits(rest.skip(1)) {
                let text = whole + seq!['.'] + fraction;
                assert(text[0] == whole[0]);
                assert forall|k: int| 0 <= k < text.len() implies ('0' <= #[trigger] text[k]
                    && text[k] <= '9') || text[k] == '.' by {
                    if k < whole.len() {
                        assert(is_digit(whole[k]));
                    } else if k > whole.len() {
                        assert(is_digit(fraction[k - whole.len() - 1]));
                    }
                }
                assert forall|i: int, j: int|
                    0 <= i < text.len() && 0 <= j < text.len() && #[trigger] text[i] == '.'
                        && #[trigger] text[j] == '.' implies i == j by {
                    if i < whole.len() {
                        assert(is_digit(whole[i]));
                    } else if i > whole.len() {
                        assert(is_digit(fraction[i - whole.len() - 1]));
                    }
                    if j < whole.len() {
                        assert(is_digit(whole[j]));
                    } else if j > whole.len() {
                        assert(is_digit(fraction[j - whole.len() - 1]));
                    }
                }
            }
        } else {
            assert forall|k: int| 0 <= k < whole.len() implies ('0' <= #[trigger] whole[k]
                && whole[k] <= '9') || whole[k] == '.' by {
                assert(is_digit(whole[k]));
            }
            assert forall|i: int, j: int|
                0 <= i < whole.len() && 0 <= j < whole.len() && #[trigger] whole[i] == '.'
                    && #[trigger] whole[j] == '.' implies i == j by {
                assert(is_digit(whole[i]));
            }
        }
    }
}

/// A run leaves less than it was given.
proof fn lemma_run_consumes(s: Seq<char>, pred: spec_fn(char) -> bool)
    ensures
        spec_run(s, pred) matches Some((_, rest)) ==> rest.len() < s.len(),
{
    lemma_run_len_bound(s, pred);
}

/// A number leaves less than it was given.
proof fn lemma_rational_number_consumes(s: Seq<char>)
    ensures
        spec_rational_number(s) matches Some((_, rest)) ==> rest.len() < s.len(),
{
    let body = after(s, '-');
    lemma_run_consumes(body, |c: char| is_digit(c));
    if let Some((_, rest)) = spec_digits(body) {
        if leads(rest, '.') {
            lemma_run_consumes(rest.skip(1), |c: char| is_digit(c));
        }
    }
}

/// Parses a number.
fn rational_number<'a>(input: &'a str) -> (out: ParseResult<'a, Number>)
    ensures
        plain(out) == spec_rational_number(input@),
{
    proof {
        reveal_strlit("-");
        reveal_strlit(".");
    }
    let (negative, input1) = symbol("-", input);
    let (whole, input2) = match digits(input1) {
        Ok(found) => found,
        Err(e) => {
            return Err(e);
        },
    };
    let (dot, input3) = symbol(".", input2);
    let (text, rest) = if dot {
        let (fraction, input4) = match digits(input3) {
            Ok(found) => found,
            Err(e) => {
                return Err(e);
            },
        };
        let mut text = whole;
        text.append(".");
        text.append(fraction.as_str());
        assert("."@ =~= seq!['.']);
        (text, input4)
    } else {
        (whole, input3)
    };
    proof {
        assert(spec_numeral(input1@) == Some((text@, rest@)));
        lemma_numeral_is_readable(input1@);
    }
    match Number::from_decimal(text.as_str()) {
        Some(n) => if negative {
            Ok((n.times(Number::minus_one()), rest))
        } else {
            Ok((n, rest))
        },
        None => Err("number too long"),
    }
}

/// `Value`: a number or a coordinate.
pub open spec fn spec_value(s: Seq<char>) -> Option<(Expr, Seq<char>)> {
    match spec_rational_number(s) {
        Some((n, rest)) => Some((Expr::Num(n), rest)),
        None => spec_coord(s),
    }
}

/// A value leaves less than it was given.
proof fn lemma_value_consumes(s: Seq<char>)
    ensures
        spec_value(s) matches Some((_, rest)) ==> rest.len() < s.len(),
{
    lemma_rational_number_consumes(s);
    lemma_run_consumes(s, |c: char| is_letter(c));
    if let Some((_, rest)) = spec_letters(s) {
        lemma_run_consumes(rest, |c: char| is_digit(c));
    }
}

/// Parses a number or a coordinate.
fn value<'a>(input: &'a str) -> (out: ParseResult<'a, ExprTree>)
    ensures
        outcome(out) == spec_value(input@),
{
    let as_node = |n: Number| -> (v: ValueNode)
        ensures
            v@ == Expr::Num(n),
        { ValueNode::Num(n) };
    let num_val = crate::combinators::map(rational_number, as_node);
    let num_or_coord = either(num_val, coord);
    let found = num_or_coord(input);
    let ghost seen = found;
    proof {
        assert(either_yields(num_val, coord, input, seen));
        match seen {
            Ok((v, rest)) => {
                if succeeds(num_val, input, v, rest) {
                    assert(map_yields(rational_number, as_node, input, Ok((v, rest))));
                    let n = choose|n: Number| #[trigger]
                        succeeds(rational_number, input, n, rest) && call_ensures(
                            as_node,
                            (n,),
                            v,
                        );
                    assert(plain::<Number>(Ok((n, rest))) == spec_rational_number(input@));
                } else {
                    let e = choose|e: &'static str| fails_with::<ValueNode, _>(num_val, input, e);
                    assert(map_yields(rational_number, as_node, input, Err(e)));
                    assert(plain::<Number>(Err(e)) == spec_rational_number(input@));
                    assert(outcome::<ValueNode>(Ok((v, rest))) == spec_coord(input@));
                }
            },
            Err(_) => {
                let e = choose|e: &'static str| fails_with::<ValueNode, _>(num_val, input, e);
                assert(map_yields(rational_number, as_node, input, Err(e)));
                assert(plain::<Number>(Err(e)) == spec_rational_number(input@));
                let e2 = choose|e: &'static str| fails_with::<ValueNode, _>(coord, input, e);
                assert(outcome::<ValueNode>(Err(e2)) == spec_coord(input@));
            },
        }
    }
    match found {
        Ok((v, rest)) => Ok((ExprTree::Leaf(v), rest)),
        Err(e) => Err(e),
    }
}

/// The operators with their right operands, as mathematical values.
pub open spec fn operands(others: Seq<(BinaryOp, ExprTree)>) -> Seq<(BinaryOp, Expr)> {
    others.map_values(|other: (BinaryOp, ExprTree)| (other.0, other.1@))
}

/// A chain of operators of one precedence, grouped from the left:
/// `a - b - c` is `(a - b) - c`.
pub open spec fn spec_reduce(first: Expr, others: Seq<(BinaryOp, Expr)>) -> Expr
    decreases others.len(),
{
    if others.len() == 0 {
        first
    } else {
        spec_reduce(
            Expr::Binary(others[0].0, Box::new(first), Box::new(others[0].1)),
            others.skip(1),
        )
    }
}

/// Builds the tree of a chain of operators of one precedence, grouping
/// from the left.
fn reduce_trees(first: ExprTree, others: Vec<(BinaryOp, ExprTree)>) -> (tree: ExprTree)
    ensures
        tree@ == spec_reduce(first@, operands(others@)),
{
    let ghost all = operands(others@);
    let ghost start = first@;
    let mut tree = first;
    let mut rest = others;
    let mut done: Vec<(BinaryOp, ExprTree)> = Vec::new();
    // Turn the list round so that its first item can be taken off its end.
    while rest.len() > 0
        invariant
            operands(rest@) + operands(done@).reverse() =~= all,
        decreases rest.len(),
    {
        let ghost before_rest = rest@;
        let ghost before_done = done@;
        let item = rest.pop().unwrap();
        done.push(item);
        assert(operands(rest@) + operands(done@).reverse() =~= operands(before_rest) + operands(
            before_done,
        ).reverse()) by {
            let a = operands(rest@) + operands(done@).reverse();
            let b = operands(before_rest) + operands(before_done).reverse();
            assert(a.len() == b.len());
            assert forall|k: int| 0 <= k < a.len() implies a[k] == b[k] by {
                if k >= rest@.len() {
                    if k == rest@.len() {
                        assert(operands(done@).reverse()[0] == operands(done@)[done@.len() - 1]);
                    } else {
                        let j = k - rest@.len();
                        assert(operands(done@).reverse()[j] == operands(done@)[done@.len() - 1
                            - j]);
                        assert(operands(before_done).reverse()[j - 1] == operands(
                            before_done,
                        )[before_done.len() - 1 - (j - 1)]);
                    }
                }
            }
        }
    }
    assert(operands(done@).reverse() =~= all);
    while done.len() > 0
        invariant
            spec_reduce(tree@, operands(done@).reverse()) == spec_reduce(start, all),
        decreases done.len(),
    {
        let ghost before = operands(done@).reverse();
        let (op, right) = done.pop().unwrap();
        assert(before[0] == (op, right@));
        assert(operands(done@).reverse() =~= before.skip(1));
        tree = ExprTree::Binary(Box::new(BinaryNode { op, left: tree, right }));
    }
    tree
}

/// The operator that an additive sign stands for.
pub open spec fn additive(s: Seq<char>) -> Option<BinaryOp> {
    if leads(s, '+') {
        Some(BinaryOp::Sum)
    } else if leads(s, '-') {
        Some(BinaryOp::Sub)
    } else {
        None
    }
}

/// The operator that a multiplicative sign stands for.
pub open spec fn multiplicative(s: Seq<char>) -> Option<BinaryOp> {
    if leads(s, '*') {
        Some(BinaryOp::Mul)
    } else if leads(s, '/') {
        Some(BinaryOp::Div)
    } else {
        None
    }
}

/// `Factor`: a value or an expression in parentheses, under an optional
/// minus sign, which negates it.
pub open spec fn spec_factor(s: Seq<char>) -> Option<(Expr, Seq<char>)>
    decreases s.len(), 0nat,
{
    let body = after(s, '-');
    let inner = match spec_value(body) {
        Some(found) => Some(found),
        None => if leads(body, '(') {
            match spec_expr(body.skip(1)) {
                Some((e, rest)) => if leads(rest, ')') {
                    Some((e, rest.skip(1)))
                } else {
                    None
                },
                None => None,
            }
        } else {
            None
        },
    };
    match inner {
        Some((e, rest)) => Some(
            (
                if leads(s, '-') {
                    Expr::Unary(UnaryOp::Not, Box::new(e))
                } else {
                    e
                },
                rest,
            ),
        ),
        None => None,
    }
}

/// `(('*' | '/') Factor)*`: the operators and factors that follow a first
/// factor, and what follows them. It ends before a sign that no factor
/// follows. (The test on the lengths is there for the definition to end;
/// by [`lemma_factor_consumes`] it never fails.)
pub open spec fn spec_factors(s: Seq<char>) -> (Seq<(BinaryOp, Expr)>, Seq<char>)
    decreases s.len(), 1nat,
{
    match multiplicative(s) {
        Some(op) => match spec_factor(s.skip(1)) {
            Some((e, rest)) => if rest.len() < s.len() {
                let (more, end) = spec_factors(rest);
                (seq![(op, e)] + more, end)
            } else {
                (Seq::empty(), s)
            },
            None => (Seq::empty(), s),
        },
        None => (Seq::empty(), s),
    }
}

/// `Term`: factors joined by `*` and `/`, grouped from the left.
pub open spec fn spec_term(s: Seq<char>) -> Option<(Expr, Seq<char>)>
    decreases s.len(), 2nat,
{
    match spec_factor(s) {
        Some((first, rest)) => if rest.len() <= s.len() {
            let (others, end) = spec_factors(rest);
            Some((spec_reduce(first, others), end))
        } else {
            None
        },
        None => None,
    }
}

/// `(('+' | '-') Term)*`: the operators and terms that follow a first
/// term, and what follows them. It ends before a sign that no term follows.
/// (By [`lemma_term_consumes`] the test on the lengths never fails.)
pub open spec fn spec_terms(s: Seq<char>) -> (Seq<(BinaryOp, Expr)>, Seq<char>)
    decreases s.len(), 3nat,
{
    match additive(s) {
        Some(op) => match spec_term(s.skip(1)) {
            Some((e, rest)) => if rest.len() < s.len() {
                let (more, end) = spec_terms(rest);
                (seq![(op, e)] + more, end)
            } else {
                (Seq::empty(), s)
            },
            None => (Seq::empty(), s),
        },
        None => (Seq::empty(), s),
    }
}

/// `Expr`: terms joined by `+` and `-`, grouped from the left.
pub open spec fn spec_expr(s: Seq<char>) -> Option<(Expr, Seq<char>)>
    decreases s.len(), 4nat,
{
    match spec_term(s) {
        Some((first, rest)) => if rest.len() <= s.len() {
            let (others, end) = spec_terms(rest);
            Some((spec_reduce(first, others), end))
        } else {
            None
        },
        None => None,
    }
}

/// A factor leaves less than it was given: the tests on the lengths in
/// [`spec_factors`] and [`spec_term`] never fail.
pub proof fn lemma_factor_consumes(s: Seq<char>)
    ensures
        spec_factor(s) matches Some((_, rest)) ==> rest.len() < s.len(),
    decreases s.len(), 0nat,
{
    let body = after(s, '-');
    lemma_value_consumes(body);
    if spec_value(body) is None && leads(body, '(') {
        lemma_expr_consumes(body.skip(1));
    }
}

/// What follows a chain of factors is no longer than the chain.
pub proof fn lemma_factors_end(s: Seq<char>)
    ensures
        spec_factors(s).1.len() <= s.len(),
    decreases s.len(), 1nat,
{
    if multiplicative(s) is Some {
        if let Some((_, rest)) = spec_factor(s.skip(1)) {
            if rest.len() < s.len() {
                lemma_factors_end(rest);
            }
        }
    }
}

/// A term leaves less than it was given: the tests on the lengths in
/// [`spec_terms`] and [`spec_expr`] never fail.
pub proof fn lemma_term_consumes(s: Seq<char>)
    ensures
        spec_term(s) matches Some((_, rest)) ==> rest.len() < s.len(),
    decreases s.len(), 2nat,
{
    lemma_factor_consumes(s);
    if let Some((_, rest)) = spec_factor(s) {
        lemma_factors_end(rest);
    }
}

/// What follows a chain of terms is no longer than the chain.
pub proof fn lemma_terms_end(s: Seq<char>)
    ensures
        spec_terms(s).1.len() <= s.len(),
    decreases s.len(), 3nat,
{
    if additive(s) is Some {
        if let Some((_, rest)) = spec_term(s.skip(1)) {
            if rest.len() < s.len() {
                lemma_terms_end(rest);
            }
        }
    }
}

/// An expression leaves less than it was given.
pub proof fn lemma_expr_consumes(s: Seq<char>)
    ensures
        spec_expr(s) matches Some((_, rest)) ==> rest.len() < s.len(),
    decreases s.len(), 4nat,
{
    lemma_term_consumes(s);
    if let Some((_, rest)) = spec_term(s) {
        lemma_terms_end(rest);
    }
}

/// Parses a factor.
fn factor<'a>(input: &'a str) -> (out: ParseResult<'a, ExprTree>)
    ensures
        outcome(out) == spec_factor(input@),
        out matches Ok((_, rest)) ==> rest@.len() < input@.len(),
        out matches Err(e) ==> e@ == "Parsers unable to parse input"@,
    decreases input@.len(), 0nat,
{
    proof {
        reveal_strlit("-");
        reveal_strlit("(");
        reveal_strlit(")");
        lemma_value_consumes(after(input@, '-'));
    }
    let (negate, input1) = symbol("-", input);
    let (child, rest) = match value(input1) {
        Ok(found) => found,
        Err(_) => {
            let (open, input2) = symbol("(", input1);
            if !open {
                return Err("Parsers unable to parse input");
            }
            let (e, input3) = match expr(input2) {
                Ok(found) => found,
                Err(_) => {
                    return Err("Parsers unable to parse input");
                },
            };
            let (close, input4) = symbol(")", input3);
            if !close {
                return Err("Parsers unable to parse input");
            }
            (e, input4)
        },
    };
    if negate {
        let node = UnaryNode { op: UnaryOp::Not, child };
        Ok((ExprTree::Unary(Box::new(node)), rest))
    } else {
        Ok((child, rest))
    }
}

/// Parses a term.
fn term<'a>(input: &'a str) -> (out: ParseResult<'a, ExprTree>)
    ensures
        outcome(out) == spec_term(input@),
        out matches Ok((_, rest)) ==> rest@.len() < input@.len(),
        out matches Err(e) ==> e@ == "Parsers unable to parse input"@,
    decreases input@.len(), 2nat,
{
    proof {
        reveal_strlit("*");
        reveal_strlit("/");
    }
    let (first_factor, input1) = match factor(input) {
        Ok(found) => found,
        Err(e) => {
            return Err(e);
        },
    };
    let mut others: Vec<(BinaryOp, ExprTree)> = Vec::new();
    let mut cur = input1;
    loop
        invariant
            "*"@ =~= seq!['*'],
            "/"@ =~= seq!['/'],
            cur@.len() <= input1@.len() < input@.len(),
            spec_factors(input1@) == (operands(others@) + spec_factors(cur@).0, spec_factors(cur@).1),
        ensures
            spec_factors(cur@) == (Seq::<(BinaryOp, Expr)>::empty(), cur@),
        decreases cur@.len(),
    {
        let (times, after_times) = symbol("*", cur);
        let (op, input2) = if times {
            (BinaryOp::Mul, after_times)
        } else {
            let (over, after_over) = symbol("/", cur);
            if !over {
                break ;
            }
            (BinaryOp::Div, after_over)
        };
        match factor(input2) {
            Ok((f, next)) => {
                proof {
                    let more = spec_factors(next@).0;
                    assert(spec_factors(cur@).0 == seq![(op, f@)] + more);
                    assert(operands(others@.push((op, f))) =~= operands(others@).push((op, f@)));
                    assert(operands(others@).push((op, f@)) + more =~= operands(others@) + (
                    seq![(op, f@)] + more));
                }
                others.push((op, f));
                cur = next;
            },
            Err(_) => {
                break ;
            },
        }
    }
    assert(operands(others@) + Seq::<(BinaryOp, Expr)>::empty() =~= operands(others@));
    Ok((reduce_trees(first_factor, others), cur))
}

/// Parses an expression.
fn expr<'a>(input: &'a str) -> (out: ParseResult<'a, ExprTree>)
    ensures
        outcome(out) == spec_expr(input@),
        out matches Ok((_, rest)) ==> rest@.len() < input@.len(),
        out matches Err(e) ==> e@ == "Parsers unable to parse input"@,
    decreases input@.len(), 4nat,
{
    proof {
        reveal_strlit("+");
        reveal_strlit("-");
    }
    let (first_term, input1) = match term(input) {
        Ok(found) => found,
        Err(e) => {
            return Err(e);
        },
    };
    let mut others: Vec<(BinaryOp, ExprTree)> = Vec::new();
    let mut cur = input1;
    loop
        invariant
            "+"@ =~= seq!['+'],
            "-"@ =~= seq!['-'],
            cur@.len() <= input1@.len() < input@.len(),
            spec_terms(input1@) == (operands(others@) + spec_terms(cur@).0, spec_terms(cur@).1),
        ensures
            spec_terms(cur@) == (Seq::<(BinaryOp, Expr)>::empty(), cur@),
        decreases cur@.len(),
    {
        let (plus, after_plus) = symbol("+", cur);
        let (op, input2) = if plus {
            (BinaryOp::Sum, after_plus)
        } else {
            let (minus, after_minus) = symbol("-", cur);
            if !minus {
                break ;
            }
            (BinaryOp::Sub, after_minus)
        };
        match term(input2) {
            Ok((t, next)) => {
                proof {
                    let more = spec_terms(next@).0;
                    assert(spec_terms(cur@).0 == seq![(op, t@)] + more);
                    assert(operands(others@.push((op, t))) =~= operands(others@).push((op, t@)));
                    assert(operands(others@).push((op, t@)) + more =~= operands(others@) + (
                    seq![(op, t@)] + more));
                }
                others.push((op, t));
                cur = next;
            },
            Err(_) => {
                break ;
            },
        }
    }
    assert(operands(others@) + Seq::<(BinaryOp, Expr)>::empty() =~= operands(others@));
    Ok((reduce_trees(first_term, others), cur))
}

/// `Formula`: an equals sign and an expression that uses up the input.
pub open spec fn spec_formula(s: Seq<char>) -> Result<Expr, Seq<char>> {
    if !leads(s, '=') {
        Err("no match"@)
    } else {
        match spec_expr(s.skip(1)) {
            Some((e, rest)) => if rest.len() == 0 {
                Ok(e)
            } else {
                Err("expected input to be empty"@)
            },
            None => Err("Parsers unable to parse input"@),
        }
    }
}

/// A text that is a number from its first to its last character.
pub open spec fn spec_num(s: Seq<char>) -> Option<Number> {
    match spec_rational_number(s) {
        Some((n, rest)) => if rest.len() == 0 {
            Some(n)
        } else {
            None
        },
        None => None,
    }
}

/// `Cell`: what a cell's text parses to, or the message of the parse error.
/// The empty text gives the empty tree. A text that starts with an equals
/// sign is a formula, and only a formula can fail. Any other text is a
/// number if all of it is one, and else stands for itself.
pub open spec fn spec_cell(s: Seq<char>) -> Result<Expr, Seq<char>> {
    if s.len() == 0 {
        Ok(Expr::Empty)
    } else if leads(s, '=') {
        spec_formula(s)
    } else {
        match spec_num(s) {
            Some(n) => Ok(Expr::Num(n)),
            None => Ok(Expr::Text(s)),
        }
    }
}

/// The tree of a cell's text; a parse error becomes a node of the tree.
pub open spec fn spec_parse(s: Seq<char>) -> Expr {
    match spec_cell(s) {
        Ok(e) => e,
        Err(message) => Expr::Error(message),
    }
}

/// What a parser that has to use up its input returns.
pub open spec fn whole<'a>(out: ParseResult<'a, ExprTree>) -> Result<Expr, Seq<char>> {
    match out {
        Ok((tree, _)) => Ok(tree@),
        Err(e) => Err(e@),
    }
}

/// A tree that a formula parses to: numbers and references, joined by
/// operators.
pub open spec fn is_formula_tree(e: Expr) -> bool
    decreases e,
{
    match e {
        Expr::Num(_) => true,
        Expr::Coord(_, _) => true,
        Expr::Unary(_, child) => is_formula_tree(*child),
        Expr::Binary(_, left, right) => is_formula_tree(*left) && is_formula_tree(*right),
        _ => false,
    }
}

/// All right operands of a chain are trees of formulas.
pub open spec fn are_formula_trees(others: Seq<(BinaryOp, Expr)>) -> bool {
    forall|k: int| 0 <= k < others.len() ==> is_formula_tree((#[trigger] others[k]).1)
}

/// A chain of trees of formulas is a tree of a formula.
proof fn lemma_reduce_is_formula_tree(first: Expr, others: Seq<(BinaryOp, Expr)>)
    requires
        is_formula_tree(first),
        are_formula_trees(others),
    ensures
        is_formula_tree(spec_reduce(first, others)),
    decreases others.len(),
{
    if others.len() > 0 {
        assert(is_formula_tree(others[0].1));
        assert forall|k: int| 0 <= k < others.skip(1).len() implies is_formula_tree(
            (#[trigger] others.skip(1)[k]).1,
        ) by {
            assert(is_formula_tree(others[k + 1].1));
        }
        lemma_reduce_is_formula_tree(
            Expr::Binary(others[0].0, Box::new(first), Box::new(others[0].1)),
            others.skip(1),
        );
    }
}

/// A factor is a tree of a formula.
proof fn lemma_factor_is_formula_tree(s: Seq<char>)
    ensures
        spec_factor(s) matches Some((e, _)) ==> is_formula_tree(e),
    decreases s.len(), 0nat,
{
    let body = after(s, '-');
    if let Some((v, _)) = spec_value(body) {
        assert(is_formula_tree(v)) by {
            if spec_rational_number(body) is None {
                assert(spec_coord(body) matches Some((c, _)) && c is Coord);
            }
        }
    } else if leads(body, '(') {
        lemma_expr_is_formula_tree(body.skip(1));
    }
    if let Some((e, _)) = spec_factor(s) {
        if leads(s, '-') {
            let inner = e->Unary_1;
            assert(is_formula_tree(*inner));
        }
    }
}

/// The factors of a chain are trees of formulas.
proof fn lemma_factors_are_formula_trees(s: Seq<char>)
    ensures
        are_formula_trees(spec_factors(s).0),
    decreases s.len(), 1nat,
{
    if let Some(op) = multiplicative(s) {
        lemma_factor_is_formula_tree(s.skip(1));
        if let Some((e, rest)) = spec_factor(s.skip(1)) {
            if rest.len() < s.len() {
                lemma_factors_are_formula_trees(rest);
                let more = spec_factors(rest).0;
                let all = seq![(op, e)] + more;
                assert forall|k: int| 0 <= k < all.len() implies is_formula_tree(
                    (#[trigger] all[k]).1,
                ) by {
                    if k > 0 {
                        assert(is_formula_tree(more[k - 1].1));
                    }
                }
            }
        }
    }
}

/// A term is a tree of a formula.
proof fn lemma_term_is_formula_tree(s: Seq<char>)
    ensures
        spec_term(s) matches Some((e, _)) ==> is_formula_tree(e),
    decreases s.len(), 2nat,
{
    lemma_factor_is_formula_tree(s);
    if let Some((first, rest)) = spec_factor(s) {
        if rest.len() <= s.len() {
            lemma_factors_are_formula_trees(rest);
            lemma_reduce_is_formula_tree(first, spec_factors(rest).0);
        }
    }
}

/// The terms of a chain are trees of formulas.
proof fn lemma_terms_are_formula_trees(s: Seq<char>)
    ensures
        are_formula_trees(spec_terms(s).0),
    decreases s.len(), 3nat,
{
    if let Some(op) = additive(s) {
        lemma_term_is_formula_tree(s.skip(1));
        if let Some((e, rest)) = spec_term(s.skip(1)) {
            if rest.len() < s.len() {
                lemma_terms_are_formula_trees(rest);
                let more = spec_terms(rest).0;
                let all = seq![(op, e)] + more;
                assert forall|k: int| 0 <= k < all.len() implies is_formula_tree(
                    (#[trigger] all[k]).1,
                ) by {
                    if k > 0 {
                        assert(is_formula_tree(more[k - 1].1));
                    }
                }
            }
        }
    }
}

/// An expression is a tree of a formula.
pub proof fn lemma_expr_is_formula_tree(s: Seq<char>)
    ensures
        spec_expr(s) matches Some((e, _)) ==> is_formula_tree(e),
    decreases s.len(), 4nat,
{
    lemma_term_is_formula_tree(s);
    if let Some((first, rest)) = spec_term(s) {
        if rest.len() <= s.len() {
            lemma_terms_are_formula_trees(rest);
            lemma_reduce_is_formula_tree(first, spec_terms(rest).0);
        }
    }
}

/// How the text of a cell is told apart.
///
/// The empty text gives the empty tree. A text that starts with an equals
/// sign gives the tree of a formula or fails, and never a text. Any other
/// text gives a number or the text itself, and never fails; it gives a
/// number exactly if all of it is a numeral under an optional minus sign,
/// of a length that the decimal conversion bears.
pub proof fn law_cell_dispatch(s: Seq<char>)
    ensures
        s.len() == 0 ==> spec_cell(s) == Ok::<Expr, Seq<char>>(Expr::Empty),
        leads(s, '=') ==> (spec_cell(s) matches Ok(e) ==> is_formula_tree(e)),
        s.len() > 0 && !leads(s, '=') ==> (spec_cell(s) matches Ok(Expr::Num(_))) || spec_cell(s)
            == Ok::<Expr, Seq<char>>(Expr::Text(s)),
        s.len() > 0 && !leads(s, '=') ==> ((spec_cell(s) matches Ok(Expr::Num(_))) <==> (
        spec_numeral(after(s, '-')) matches Some((text, rest)) && rest.len() == 0 && numeral_fits(
            text.len(),
        ))),
{
    if leads(s, '=') {
        lemma_expr_is_formula_tree(s.skip(1));
    }
}

/// Parses a formula.
fn formula<'a>(input: &'a str) -> (out: ParseResult<'a, ExprTree>)
    ensures
        whole(out) == spec_formula(input@),
        out matches Ok((_, rest)) ==> rest@.len() == 0,
{
    proof {
        reveal_strlit("=");
    }
    let equals = literal("=");
    let sign = equals(input);
    assert(literal_yields("="@, input, sign));
    let input1 = match sign {
        Ok((_, rest)) => {
            assert("="@[0] == input@.subrange(0, 1)[0]);
            rest
        },
        Err(e) => {
            proof {
                if leads(input@, '=') {
                    assert("="@ =~= input@.subrange(0, 1));
                }
            }
            return Err(e);
        },
    };
    let body = empty_or_err(expr);
    let found = body(input1);
    let ghost seen = found;
    proof {
        assert(empty_or_err_yields(expr, input1, seen));
        match seen {
            Ok((tree, rest)) => {
                let end = choose|end: &'a str| #[trigger]
                    succeeds(expr, input1, tree, end) && end@.len() == 0;
                assert(outcome::<ExprTree>(Ok((tree, end))) == spec_expr(input1@));
            },
            Err(e) => {
                if fails_with::<ExprTree, _>(expr, input1, e) {
                    assert(outcome::<ExprTree>(Err(e)) == spec_expr(input1@));
                } else {
                    let (tree, rest) = choose|tree: ExprTree, rest: &'a str| #[trigger]
                        succeeds(expr, input1, tree, rest) && rest@.len() > 0;
                    assert(outcome::<ExprTree>(Ok((tree, rest))) == spec_expr(input1@));
                }
            },
        }
    }
    found
}

/// Parses a text that is a number from its first to its last character.
fn num<'a>(input: &'a str) -> (out: ParseResult<'a, ExprTree>)
    ensures
        match out {
            Ok((tree, rest)) => spec_num(input@) == Some(tree@->Num_0) && tree@ is Num
                && rest@.len() == 0,
            Err(_) => spec_num(input@) is None,
        },
{
    let as_leaf = |n: Number| -> (tree: ExprTree)
        ensures
            tree@ == Expr::Num(n),
        { ExprTree::Leaf(ValueNode::Num(n)) };
    let number = crate::combinators::map(rational_number, as_leaf);
    let all = empty_or_err(number);
    let found = all(input);
    let ghost seen = found;
    proof {
        assert(empty_or_err_yields(number, input, seen));
        match seen {
            Ok((tree, rest)) => {
                let end = choose|end: &'a str| #[trigger]
                    succeeds(number, input, tree, end) && end@.len() == 0;
                assert(map_yields(rational_number, as_leaf, input, Ok((tree, end))));
                let n = choose|n: Number| #[trigger]
                    succeeds(rational_number, input, n, end) && call_ensures(as_leaf, (n,), tree);
                assert(plain::<Number>(Ok((n, end))) == spec_rational_number(input@));
            },
            Err(e) => {
                if fails_with::<ExprTree, _>(number, input, e) {
                    assert(map_yields(rational_number, as_leaf, input, Err(e)));
                    assert(plain::<Number>(Err(e)) == spec_rational_number(input@));
                } else {
                    let (tree, rest) = choose|tree: ExprTree, rest: &'a str| #[trigger]
                        succeeds(number, input, tree, rest) && rest@.len() > 0;
                    assert(map_yields(rational_number, as_leaf, input, Ok((tree, rest))));
                    let n = choose|n: Number| #[trigger]
                        succeeds(rational_number, input, n, rest) && call_ensures(
                            as_leaf,
                            (n,),
                            tree,
                        );
                    assert(plain::<Number>(Ok((n, rest))) == spec_rational_number(input@));
                }
            },
        }
    }
    found
}

/// Every character belongs to the run of the predicate that holds of all.
proof fn lemma_run_of_all(s: Seq<char>)
    ensures
        run_len(s, |c: char| true) == s.len(),
    decreases s.len(),
{
    if s.len() > 0 {
        lemma_run_of_all(s.skip(1));
    }
}

/// Parses any input as the text that it is.
fn text<'a>(input: &'a str) -> (out: ParseResult<'a, ExprTree>)
    ensures
        out matches Ok((tree, rest)) && tree@ == Expr::Text(input@) && rest@.len() == 0,
{
    let as_leaf = |chars: Vec<char>| -> (tree: ExprTree)
        ensures
            tree@ == Expr::Text(chars@),
        { ExprTree::Leaf(ValueNode::Text(collect_string(&chars))) };
    let ghost pred: spec_fn(char) -> bool = |c: char| true;
    assert(consuming(any_char)) by {
        assert forall|i: &'a str, c: char, rest: &'a str| #[trigger]
            succeeds(any_char, i, c, rest) implies rest@.len() < i@.len() by {
            assert(any_char_yields(i, Ok((c, rest))));
        }
    }
    let multiple_chars = zero_or_more(any_char);
    let leaf = crate::combinators::map(multiple_chars, as_leaf);
    let all = empty_or_err(leaf);
    let found = all(input);
    let ghost seen = found;
    proof {
        assert(char_parser(any_char, pred)) by {
            assert forall|i: &'a str, o: ParseResult<'a, char>| #[trigger]
                call_ensures(any_char, (i,), o) implies match o {
                Ok((c, rest)) => i@.len() > 0 && c == i@[0] && pred(c) && rest@ == i@.skip(1),
                Err(_) => i@.len() == 0 || !pred(i@[0]),
            } by {
                assert(any_char_yields(i, o));
            }
        }
        lemma_run_of_all(input@);
        // Whatever the characters parser returns, it is the whole input.
        assert forall|chars: Vec<char>, rest: &'a str| #[trigger]
            succeeds(multiple_chars, input, chars, rest) implies chars@ == input@ && rest@.len()
            == 0 by {
            assert(zero_or_more_yields(any_char, input, Ok((chars, rest))));
            let inputs = choose|inputs: Seq<&'a str>| #[trigger]
                repeats(any_char, inputs, chars@) && inputs[0] == input && inputs.last() == rest
                    && fails::<char, _>(any_char, rest);
            lemma_repeats_is_run(any_char, pred, inputs, chars@);
            assert(input@.take(input@.len() as int) =~= input@);
        }
        assert(empty_or_err_yields(leaf, input, seen));
        match seen {
            Ok((tree, rest)) => {
                let end = choose|end: &'a str| #[trigger]
                    succeeds(leaf, input, tree, end) && end@.len() == 0;
                assert(map_yields(multiple_chars, as_leaf, input, Ok((tree, end))));
                let chars = choose|chars: Vec<char>| #[trigger]
                    succeeds(multiple_chars, input, chars, end) && call_ensures(
                        as_leaf,
                        (chars,),
                        tree,
                    );
            },
            Err(e) => {
                if fails_with::<ExprTree, _>(leaf, input, e) {
                    assert(map_yields(multiple_chars, as_leaf, input, Err(e)));
                    assert(zero_or_more_yields(any_char, input, Err(e)));
                } else {
                    let (tree, rest) = choose|tree: ExprTree, rest: &'a str| #[trigger]
                        succeeds(leaf, input, tree, rest) && rest@.len() > 0;
                    assert(map_yields(multiple_chars, as_leaf, input, Ok((tree, rest))));
                    let chars = choose|chars: Vec<char>| #[trigger]
                        succeeds(multiple_chars, input, chars, rest) && call_ensures(
                            as_leaf,
                            (chars,),
                            tree,
                        );
                }
            },
        }
    }
    found
}

/// Parses the text of a cell. On success nothing of the input is left.
pub fn cell<'a>(input: &'a str) -> (out: ParseResult<'a, ExprTree>)
    ensures
        whole(out) == spec_cell(input@),
        out matches Ok((_, rest)) ==> rest@.len() == 0,
{
    let n = input.unicode_len();
    if n == 0 {
        return Ok((ExprTree::Empty, input));
    }
    if input.get_char(0) == '=' {
        formula(input)
    } else {
        // The order matters: a text is a number wherever it can be one.
        let number_or_text = either(num, text);
        let found = number_or_text(input);
        let ghost seen = found;
        proof {
            assert(either_yields(num, text, input, seen));
            match seen {
                Ok((tree, rest)) => {},
                Err(_) => {
                    let e = choose|e: &'static str| fails_with::<ExprTree, _>(text, input, e);
                    assert(call_ensures(text, (input,), Err::<(ExprTree, &'a str), &'static str>(e)));
                },
            }
        }
        found
    }
}

} // verus!
