use spreadsheet::expr::{BinaryOp, ExprResult, ExprTree, UnaryOp, ValueNode};
use spreadsheet::number::Number;
use spreadsheet::parser::{cell, digits, letters, letters_to_col};
use spreadsheet::Spreadsheet;

fn num(x: f64) -> Number {
    Number::from_bits(x.to_bits())
}

fn eval(text: &str) -> ExprResult {
    let ss = Spreadsheet::new(3, 3);
    ExprTree::new(text).eval(&ss)
}

#[test]
fn letters_to_col_smoketest() {
    assert_eq!(letters_to_col("A"), 0);
    assert_eq!(letters_to_col("z"), 25);
    assert_eq!(letters_to_col("Aa"), 26);
    assert_eq!(letters_to_col("ba"), 52);
}

#[test]
fn digits_takes_the_leading_digits() {
    assert_eq!(digits("123abc"), Ok(("123".to_string(), "abc")));
    assert!(digits("abc").is_err());
    assert!(digits("").is_err());
}

#[test]
fn runs_fail_with_a_message() {
    assert_eq!(digits(""), Err("End of string"));
    assert_eq!(digits("x1"), Err("Predicate failed"));
    assert_eq!(letters(""), Err("End of string"));
    assert_eq!(letters("1x"), Err("Predicate failed"));
    assert_eq!(digits("٣"), Err("Predicate failed"));
}

#[test]
fn letters_takes_the_leading_letters() {
    assert_eq!(letters("AbC12"), Ok(("AbC".to_string(), "12")));
    assert!(letters("1A").is_err());
}

#[test]
fn subtraction_groups_from_the_left() {
    assert_eq!(eval("=1-2-3"), ExprResult::Num(num(-4.0)));
    assert_eq!(eval("=8/4/2"), ExprResult::Num(num(1.0)));
}

#[test]
fn multiplication_binds_tighter_than_addition() {
    assert_eq!(eval("=1+2*10-2"), ExprResult::Num(num(19.0)));
    assert_eq!(eval("=1+-(1+2*10)"), ExprResult::Num(num(-20.0)));
    assert_eq!(eval("=(1+2)*3"), ExprResult::Num(num(9.0)));
}

#[test]
fn plain_numbers_and_texts() {
    assert_eq!(eval("12.5"), ExprResult::Num(num(12.5)));
    assert_eq!(eval("-3"), ExprResult::Num(num(-3.0)));
    assert_eq!(eval("0.1"), ExprResult::Num(num(0.1)));
    assert_eq!(eval("1."), ExprResult::Text("1.".to_string()));
    assert_eq!(eval("12abc"), ExprResult::Text("12abc".to_string()));
    assert_eq!(eval("hello"), ExprResult::Text("hello".to_string()));
    assert_eq!(eval(""), ExprResult::Text("".to_string()));
}

#[test]
fn empty_text_is_the_empty_tree() {
    assert!(matches!(ExprTree::new(""), ExprTree::Empty));
    let (tree, rest) = cell("").unwrap();
    assert!(matches!(tree, ExprTree::Empty));
    assert_eq!(rest, "");
}

#[test]
fn division_by_zero_is_no_error() {
    assert_eq!(eval("=1/0"), ExprResult::Num(num(f64::INFINITY)));
    assert_eq!(eval("=-1/0"), ExprResult::Num(num(f64::NEG_INFINITY)));
    match eval("=0/0") {
        ExprResult::Num(n) => assert!(f64::from_bits(n.to_bits()).is_nan()),
        other => panic!("expected a number, got {:?}", other),
    }
}

#[test]
fn arithmetic_rounds_as_doubles_do() {
    assert_eq!(eval("=0.1+0.2"), ExprResult::Num(num(0.1 + 0.2)));
    assert_eq!(eval("=1/3"), ExprResult::Num(num(1.0 / 3.0)));
    assert_eq!(eval("=2.5*4"), ExprResult::Num(num(10.0)));
    assert_eq!(eval("=7-9.25"), ExprResult::Num(num(-2.25)));
}

#[test]
fn formula_errors_are_trees() {
    match ExprTree::new("=1+") {
        ExprTree::Error(m) => assert_eq!(m, "expected input to be empty"),
        _ => panic!("expected an error tree"),
    }
    match ExprTree::new("=") {
        ExprTree::Error(m) => assert_eq!(m, "Parsers unable to parse input"),
        _ => panic!("expected an error tree"),
    }
    match ExprTree::new("=(1+2") {
        ExprTree::Error(m) => assert_eq!(m, "Parsers unable to parse input"),
        _ => panic!("expected an error tree"),
    }
    assert!(matches!(eval("=test+test"), ExprResult::Error(_)));
    assert!(cell("=1)").is_err());
}

#[test]
fn coordinates_decode_letters_and_rows() {
    match ExprTree::new("=AB23") {
        ExprTree::Leaf(ValueNode::Coord(row, col)) => {
            assert_eq!(row, 22);
            assert_eq!(col, 27);
        }
        _ => panic!("expected a coordinate"),
    }
    match ExprTree::new("=a1") {
        ExprTree::Leaf(ValueNode::Coord(row, col)) => {
            assert_eq!((row, col), (0, 0));
        }
        _ => panic!("expected a coordinate"),
    }
    assert!(matches!(ExprTree::new("=A0"), ExprTree::Error(_)));
    assert!(matches!(
        ExprTree::new("=A99999999999999999999999999"),
        ExprTree::Error(_)
    ));
    assert!(matches!(
        ExprTree::new("=ZZZZZZZZZZZZZZZZZZZZ1"),
        ExprTree::Error(_)
    ));
}

#[test]
fn negation_is_a_node_of_the_tree() {
    match ExprTree::new("=-A1") {
        ExprTree::Unary(node) => {
            assert_eq!(node.op, UnaryOp::Not);
            assert!(matches!(node.child, ExprTree::Leaf(ValueNode::Coord(0, 0))));
        }
        _ => panic!("expected a negation"),
    }
    match ExprTree::new("=1-2") {
        ExprTree::Binary(node) => assert_eq!(node.op, BinaryOp::Sub),
        _ => panic!("expected a difference"),
    }
}

#[test]
fn references_outside_the_grid_are_errors() {
    assert_eq!(
        eval("=D1"),
        ExprResult::Error("reference outside the grid".to_string())
    );
    assert_eq!(eval("=A1"), ExprResult::Text("".to_string()));
}

#[test]
fn mismatched_operands_name_their_kinds() {
    let ss = Spreadsheet::new(1, 1);
    let text = ExprResult::Text("a".to_string());
    let one = ExprResult::Num(num(1.0));
    assert_eq!(
        text.clone().add(one.clone()),
        ExprResult::Error("can't add Text with Num".to_string())
    );
    assert_eq!(
        one.clone().sub(text.clone()),
        ExprResult::Error("can't sub Num with Text".to_string())
    );
    assert_eq!(
        text.clone().mul(text.clone()),
        ExprResult::Error("can't mul Text with Text".to_string())
    );
    assert_eq!(
        ExprResult::Error("x".to_string()).div(one.clone()),
        ExprResult::Error("can't div Error with Num".to_string())
    );
    assert_eq!(
        text.clone().add(ExprResult::Text("b".to_string())),
        ExprResult::Text("ab".to_string())
    );
    assert_eq!(UnaryOp::Not.apply(one), ExprResult::Num(num(-1.0)));
    assert_eq!(
        BinaryOp::Div.apply(ExprResult::Num(num(1.0)), ExprResult::Num(num(4.0))),
        ExprResult::Num(num(0.25))
    );
    assert_eq!(ss.width(), 1);
}

#[test]
fn long_texts_are_parsed() {
    let long: String = std::iter::repeat("abc ").take(1000).collect();
    assert_eq!(eval(&long), ExprResult::Text(long.clone()));
    let sum: String = std::iter::repeat("1").take(500).collect::<Vec<_>>().join("+");
    assert_eq!(eval(&format!("={}", sum)), ExprResult::Num(num(500.0)));
    let digits: String = std::iter::repeat("9").take(400).collect();
    assert_eq!(eval(&digits), ExprResult::Num(num(f64::INFINITY)));
    assert_eq!(eval(&format!("0.{}", digits)), ExprResult::Num(num(1.0)));
}

/// `count` times the digit `digit`.
fn run_of(digit: &str, count: usize) -> String {
    std::iter::repeat(digit).take(count).collect()
}

#[test]
fn a_long_numeral_is_a_number() {
    let nines = run_of("9", 70_000);
    assert_eq!(eval(&nines), ExprResult::Num(num(f64::INFINITY)));
    assert_eq!(
        eval(&format!("-{}", nines)),
        ExprResult::Num(num(f64::NEG_INFINITY))
    );
}

#[test]
fn a_long_fraction_is_a_number() {
    let small = format!("0.{}", run_of("3", 70_000));
    assert_eq!(
        eval(&small),
        ExprResult::Num(num(small.parse::<f64>().unwrap()))
    );
}

#[test]
fn a_long_numeral_with_a_fraction_is_a_number() {
    let wide = format!("{}.{}", run_of("7", 300), run_of("3", 70_000));
    assert_eq!(
        eval(&wide),
        ExprResult::Num(num(wide.parse::<f64>().unwrap()))
    );
}

#[test]
fn a_long_numeral_in_a_formula_is_a_number() {
    let nines = run_of("9", 70_000);
    assert_eq!(
        eval(&format!("={}+1", nines)),
        ExprResult::Num(num(f64::INFINITY))
    );
    let wide = format!("{}.{}", run_of("7", 300), run_of("3", 1_000));
    assert_eq!(
        eval(&format!("=1/{}", wide)),
        ExprResult::Num(num(1.0 / wide.parse::<f64>().unwrap()))
    );
}

#[test]
fn texts_that_are_almost_numerals_are_texts() {
    assert_eq!(eval("1.2.3"), ExprResult::Text("1.2.3".to_string()));
    assert_eq!(eval("."), ExprResult::Text(".".to_string()));
    assert_eq!(eval(".5"), ExprResult::Text(".5".to_string()));
    assert_eq!(eval("-"), ExprResult::Text("-".to_string()));
    assert_eq!(eval("1e5"), ExprResult::Text("1e5".to_string()));
    assert_eq!(eval("1"), ExprResult::Num(num(1.0)));
    assert_eq!(eval("-0"), ExprResult::Num(num(-0.0)));
    assert_eq!(eval("007.50"), ExprResult::Num(num(7.5)));
}
