//! Expression trees, the values they evaluate to, and the evaluator.

use crate::number::{ieee_add, ieee_div, ieee_mul, ieee_sub, Number, MINUS_ONE_BITS};
use crate::parser::{cell, spec_parse};
use crate::sheet::{SheetView, Spreadsheet};
use std::collections::HashSet;
use vstd::prelude::*;
use vstd::string::*;

verus! {

/// A prefix operator. `Not` negates a number.
#[derive(Clone, Copy, Debug, PartialEq, Eq, Structural)]
pub enum UnaryOp {
    Not,
}

/// An infix operator.
#[derive(Clone, Copy, Debug, PartialEq, Eq, Structural)]
pub enum BinaryOp {
    Sum,
    Sub,
    Mul,
    Div,
}

/// A leaf of an expression tree.
#[derive(Debug)]
pub enum ValueNode {
    Text(String),
    Num(Number),
    /// A reference to the cell at a zero-based row and column.
    Coord(usize, usize),
}

/// A prefix operator with its operand.
#[derive(Debug)]
pub struct UnaryNode {
    pub op: UnaryOp,
    pub child: ExprTree,
}

/// An infix operator with its operands.
#[derive(Debug)]
pub struct BinaryNode {
    pub op: BinaryOp,
    pub left: ExprTree,
    pub right: ExprTree,
}

/// What a cell's text parses to.
#[derive(Debug)]
pub enum ExprTree {
    /// The tree of a cell without text.
    Empty,
    /// A text that failed to parse, with the parser's message.
    Error(String),
    Leaf(ValueNode),
    Unary(Box<UnaryNode>),
    Binary(Box<BinaryNode>),
}

/// The mathematical value of an [`ExprTree`].
pub enum Expr {
    Empty,
    Error(Seq<char>),
    Text(Seq<char>),
    Num(Number),
    Coord(usize, usize),
    Unary(UnaryOp, Box<Expr>),
    Binary(BinaryOp, Box<Expr>, Box<Expr>),
}

impl View for ValueNode {
    type V = Expr;

    open spec fn view(&self) -> Expr {
        match self {
            ValueNode::Text(t) => Expr::Text(t@),
            ValueNode::Num(n) => Expr::Num(*n),
            ValueNode::Coord(row, col) => Expr::Coord(*row, *col),
        }
    }
}

impl View for ExprTree {
    type V = Expr;

    open spec fn view(&self) -> Expr
        decreases self,
    {
        match self {
            ExprTree::Empty => Expr::Empty,
            ExprTree::Error(e) => Expr::Error(e@),
            ExprTree::Leaf(v) => v@,
            ExprTree::Unary(u) => Expr::Unary(u.op, Box::new(u.child@)),
            ExprTree::Binary(b) => Expr::Binary(b.op, Box::new(b.left@), Box::new(b.right@)),
        }
    }
}

impl Clone for ValueNode {
    fn clone(&self) -> (r: Self)
        ensures
            r@ == self@,
    {
        match self {
            ValueNode::Text(t) => ValueNode::Text(t.clone()),
            ValueNode::Num(n) => ValueNode::Num(*n),
            ValueNode::Coord(row, col) => ValueNode::Coord(*row, *col),
        }
    }
}

impl Clone for ExprTree {
    fn clone(&self) -> (r: Self)
        ensures
            r@ == self@,
        decreases self,
    {
        match self {
            ExprTree::Empty => ExprTree::Empty,
            ExprTree::Error(e) => ExprTree::Error(e.clone()),
            ExprTree::Leaf(v) => ExprTree::Leaf(v.clone()),
            ExprTree::Unary(u) => ExprTree::Unary(
                Box::new(UnaryNode { op: u.op, child: u.child.clone() }),
            ),
            ExprTree::Binary(b) => ExprTree::Binary(
                Box::new(BinaryNode { op: b.op, left: b.left.clone(), right: b.right.clone() }),
            ),
        }
    }
}

impl Clone for UnaryNode {
    fn clone(&self) -> (r: Self)
        ensures
            r.op == self.op,
            r.child@ == self.child@,
    {
        UnaryNode { op: self.op, child: self.child.clone() }
    }
}

impl Clone for BinaryNode {
    fn clone(&self) -> (r: Self)
        ensures
            r.op == self.op,
            r.left@ == self.left@,
            r.right@ == self.right@,
    {
        BinaryNode { op: self.op, left: self.left.clone(), right: self.right.clone() }
    }
}

impl Default for ExprTree {
    fn default() -> (r: Self)
        ensures
            r@ == Expr::Empty,
    {
        ExprTree::Empty
    }
}

/// The value of a cell: a number, a text, or an error with its message.
#[derive(Debug)]
pub enum ExprResult {
    Num(Number),
    Text(String),
    Error(String),
}

/// The mathematical value of an [`ExprResult`].
pub enum Value {
    Num(Number),
    Text(Seq<char>),
    Error(Seq<char>),
}

impl View for ExprResult {
    type V = Value;

    open spec fn view(&self) -> Value {
        match self {
            ExprResult::Num(n) => Value::Num(*n),
            ExprResult::Text(t) => Value::Text(t@),
            ExprResult::Error(e) => Value::Error(e@),
        }
    }
}

impl Clone for ExprResult {
    fn clone(&self) -> (r: Self)
        ensures
            r@ == self@,
    {
        match self {
            ExprResult::Num(n) => ExprResult::Num(*n),
            ExprResult::Text(t) => ExprResult::Text(t.clone()),
            ExprResult::Error(e) => ExprResult::Error(e.clone()),
        }
    }
}

impl PartialEq for ExprResult {
    fn eq(&self, other: &Self) -> (r: bool) {
        match self {
            ExprResult::Num(n1) => match other {
                ExprResult::Num(n2) => n1.bits == n2.bits,
                _ => false,
            },
            ExprResult::Text(t1) => match other {
                ExprResult::Text(t2) => *t1 == *t2,
                _ => false,
            },
            ExprResult::Error(e1) => match other {
                ExprResult::Error(e2) => *e1 == *e2,
                _ => false,
            },
        }
    }
}

impl vstd::std_specs::cmp::PartialEqSpecImpl for ExprResult {
    open spec fn obeys_eq_spec() -> bool {
        true
    }

    open spec fn eq_spec(&self, other: &Self) -> bool {
        self@ == other@
    }
}

/// The word by which a message names the kind of a value.
pub open spec fn kind_name(v: Value) -> Seq<char> {
    match v {
        Value::Num(_) => "Num"@,
        Value::Text(_) => "Text"@,
        Value::Error(_) => "Error"@,
    }
}

/// The word by which a message names an operator.
pub open spec fn op_word(op: BinaryOp) -> Seq<char> {
    match op {
        BinaryOp::Sum => "add"@,
        BinaryOp::Sub => "sub"@,
        BinaryOp::Mul => "mul"@,
        BinaryOp::Div => "div"@,
    }
}

/// The message of the error that an operator gives on operands it has no
/// meaning for: it names the operator and the kinds of both operands.
pub open spec fn mismatch_message(op: BinaryOp, l: Value, r: Value) -> Seq<char> {
    "can't "@ + op_word(op) + " "@ + kind_name(l) + " with "@ + kind_name(r)
}

/// The result of an infix operator on two values: arithmetic on two
/// numbers, concatenation for the sum of two texts, an error otherwise.
pub open spec fn apply_binary(op: BinaryOp, l: Value, r: Value) -> Value {
    match (op, l, r) {
        (BinaryOp::Sum, Value::Num(a), Value::Num(b)) => Value::Num(
            Number { bits: ieee_add(a.bits, b.bits) },
        ),
        (BinaryOp::Sum, Value::Text(a), Value::Text(b)) => Value::Text(a + b),
        (BinaryOp::Sub, Value::Num(a), Value::Num(b)) => Value::Num(
            Number { bits: ieee_sub(a.bits, b.bits) },
        ),
        (BinaryOp::Mul, Value::Num(a), Value::Num(b)) => Value::Num(
            Number { bits: ieee_mul(a.bits, b.bits) },
        ),
        (BinaryOp::Div, Value::Num(a), Value::Num(b)) => Value::Num(
            Number { bits: ieee_div(a.bits, b.bits) },
        ),
        _ => Value::Error(mismatch_message(op, l, r)),
    }
}

/// The result of a prefix operator on a value: `-1` times the value.
pub open spec fn apply_unary(op: UnaryOp, v: Value) -> Value {
    apply_binary(BinaryOp::Mul, Value::Num(Number { bits: MINUS_ONE_BITS }), v)
}

impl ExprResult {
    fn kind(&self) -> (s: &'static str)
        ensures
            s@ == kind_name(self@),
    {
        match self {
            ExprResult::Num(_) => "Num",
            ExprResult::Text(_) => "Text",
            ExprResult::Error(_) => "Error",
        }
    }

    fn mismatch(op: BinaryOp, l: &ExprResult, r: &ExprResult) -> (e: ExprResult)
        ensures
            e@ == Value::Error(mismatch_message(op, l@, r@)),
    {
        let word = match op {
            BinaryOp::Sum => "add",
            BinaryOp::Sub => "sub",
            BinaryOp::Mul => "mul",
            BinaryOp::Div => "div",
        };
        let mut message = String::from_str("can't ");
        message.append(word);
        message.append(" ");
        message.append(l.kind());
        message.append(" with ");
        message.append(r.kind());
        ExprResult::Error(message)
    }

    /// The sum of two numbers or the concatenation of two texts.
    pub fn add(self, rhs: ExprResult) -> (r: ExprResult)
        ensures
            r@ == apply_binary(BinaryOp::Sum, self@, rhs@),
    {
        match (&self, &rhs) {
            (ExprResult::Num(n1), ExprResult::Num(n2)) => ExprResult::Num(n1.plus(*n2)),
            (ExprResult::Text(t1), ExprResult::Text(t2)) => {
                let mut t = t1.clone();
                t.append(t2.as_str());
                ExprResult::Text(t)
            },
            _ => ExprResult::mismatch(BinaryOp::Sum, &self, &rhs),
        }
    }

    /// The difference of two numbers.
    pub fn sub(self, rhs: ExprResult) -> (r: ExprResult)
        ensures
            r@ == apply_binary(BinaryOp::Sub, self@, rhs@),
    {
        match (&self, &rhs) {
            (ExprResult::Num(n1), ExprResult::Num(n2)) => ExprResult::Num(n1.minus(*n2)),
            _ => ExprResult::mismatch(BinaryOp::Sub, &self, &rhs),
        }
    }

    /// The product of two numbers.
    pub fn mul(self, rhs: ExprResult) -> (r: ExprResult)
        ensures
            r@ == apply_binary(BinaryOp::Mul, self@, rhs@),
    {
        match (&self, &rhs) {
            (ExprResult::Num(n1), ExprResult::Num(n2)) => ExprResult::Num(n1.times(*n2)),
            _ => ExprResult::mismatch(BinaryOp::Mul, &self, &rhs),
        }
    }

    /// The quotient of two numbers. Division by zero is no error: it gives
    /// an infinity or a NaN.
    pub fn div(self, rhs: ExprResult) -> (r: ExprResult)
        ensures
            r@ == apply_binary(BinaryOp::Div, self@, rhs@),
    {
        match (&self, &rhs) {
            (ExprResult::Num(n1), ExprResult::Num(n2)) => ExprResult::Num(n1.divided_by(*n2)),
            _ => ExprResult::mismatch(BinaryOp::Div, &self, &rhs),
        }
    }
}

/// The value of a tree over a grid. A reference evaluates to the last
/// computed value of the cell it names, without evaluating that cell again,
/// and to an error where it names no cell of the grid.
pub open spec fn eval(e: Expr, grid: SheetView) -> Value
    decreases e,
{
    match e {
        Expr::Empty => Value::Text(Seq::empty()),
        Expr::Error(message) => Value::Error(message),
        Expr::Text(t) => Value::Text(t),
        Expr::Num(n) => Value::Num(n),
        Expr::Coord(row, col) => if grid.in_grid(row, col) {
            grid.cells[grid.index_of(row, col)].out
        } else {
            Value::Error("reference outside the grid"@)
        },
        Expr::Unary(op, child) => apply_unary(op, eval(*child, grid)),
        Expr::Binary(op, left, right) => apply_binary(op, eval(*left, grid), eval(*right, grid)),
    }
}

/// The indices of the cells that a tree refers to, in a grid of the given
/// width and height. A reference that names no cell of the grid counts for
/// nothing.
pub open spec fn refs(e: Expr, width: usize, height: usize) -> Set<usize>
    decreases e,
{
    match e {
        Expr::Coord(row, col) => if row < height && col < width {
            set![(row * width + col) as usize]
        } else {
            Set::empty()
        },
        Expr::Unary(_, child) => refs(*child, width, height),
        Expr::Binary(_, left, right) => refs(*left, width, height).union(
            refs(*right, width, height),
        ),
        _ => Set::empty(),
    }
}

/// A tree refers to cells of the grid only.
pub proof fn lemma_refs_in_grid(e: Expr, width: usize, height: usize, j: usize)
    requires
        refs(e, width, height).contains(j),
    ensures
        j < width * height,
    decreases e,
{
    match e {
        Expr::Coord(row, col) => {
            assert(row * width + col < width * height) by (nonlinear_arith)
                requires
                    row < height,
                    col < width,
            ;
        },
        Expr::Unary(_, child) => {
            lemma_refs_in_grid(*child, width, height, j);
        },
        Expr::Binary(_, left, right) => {
            if refs(*left, width, height).contains(j) {
                lemma_refs_in_grid(*left, width, height, j);
            } else {
                lemma_refs_in_grid(*right, width, height, j);
            }
        },
        _ => {},
    }
}

/// The value of a tree depends on the grid only through its size and the
/// values of the cells that the tree refers to.
pub proof fn lemma_eval_reads_refs(e: Expr, a: SheetView, b: SheetView)
    requires
        a.width == b.width,
        a.height == b.height,
        a.is_grid(),
        b.is_grid(),
        forall|j: usize| #[trigger]
            refs(e, a.width, a.height).contains(j) ==> a.cells[j as int].out
                == b.cells[j as int].out,
    ensures
        eval(e, a) == eval(e, b),
    decreases e,
{
    let w = a.width;
    let h = a.height;
    match e {
        Expr::Coord(row, col) => {
            if a.in_grid(row, col) {
                crate::sheet::lemma_index_in_range(a, row, col);
                let j = (row * w + col) as usize;
                assert(refs(e, w, h).contains(j));
            }
        },
        Expr::Unary(_, child) => {
            assert forall|j: usize| #[trigger] refs(*child, w, h).contains(j) implies a.cells[j as int].out
                == b.cells[j as int].out by {
                assert(refs(e, w, h).contains(j));
            }
            lemma_eval_reads_refs(*child, a, b);
        },
        Expr::Binary(_, left, right) => {
            assert forall|j: usize| #[trigger] refs(*left, w, h).contains(j) implies a.cells[j as int].out
                == b.cells[j as int].out by {
                assert(refs(e, w, h).contains(j));
            }
            assert forall|j: usize| #[trigger] refs(*right, w, h).contains(j) implies a.cells[j as int].out
                == b.cells[j as int].out by {
                assert(refs(e, w, h).contains(j));
            }
            lemma_eval_reads_refs(*left, a, b);
            lemma_eval_reads_refs(*right, a, b);
        },
        _ => {},
    }
}

impl ExprTree {
    /// Parses the text of a cell. A text that fails to parse gives an
    /// `Error` tree with the parser's message.
    pub fn new(input: &str) -> (tree: ExprTree)
        ensures
            tree@ == spec_parse(input@),
    {
        match cell(input) {
            Ok((expr, _)) => expr,
            Err(e) => ExprTree::Error(String::from_str(e)),
        }
    }

    /// Evaluates the tree over the grid.
    pub fn eval(&self, ss: &Spreadsheet) -> (r: ExprResult)
        requires
            ss@.is_grid(),
        ensures
            r@ == eval(self@, ss@),
        decreases self,
    {
        match self {
            ExprTree::Empty => ExprResult::Text(String::new()),
            ExprTree::Error(e) => ExprResult::Error(e.clone()),
            ExprTree::Leaf(ValueNode::Num(n)) => ExprResult::Num(*n),
            ExprTree::Leaf(ValueNode::Coord(row, col)) => {
                if *row < ss.height() && *col < ss.width() {
                    ss.get(*row, *col).out().clone()
                } else {
                    ExprResult::Error(String::from_str("reference outside the grid"))
                }
            },
            ExprTree::Leaf(ValueNode::Text(t)) => ExprResult::Text(t.clone()),
            ExprTree::Unary(u) => u.op.apply(u.child.eval(ss)),
            ExprTree::Binary(b) => b.op.apply(b.left.eval(ss), b.right.eval(ss)),
        }
    }

    /// Adds to `outbound` the indices of the cells of the grid that the tree
    /// refers to.
    pub fn fill_outbound(&self, ss: &Spreadsheet, outbound: &mut HashSet<usize>)
        requires
            ss@.is_grid(),
        ensures
            final(outbound)@ == old(outbound)@.union(refs(self@, ss@.width, ss@.height)),
        decreases self,
    {
        broadcast use vstd::std_specs::hash::group_hash_axioms;
        match self {
            ExprTree::Empty => (),
            ExprTree::Error(_) => (),
            ExprTree::Leaf(ValueNode::Text(_)) => (),
            ExprTree::Leaf(ValueNode::Num(_)) => (),
            ExprTree::Leaf(ValueNode::Coord(row, col)) => {
                if *row < ss.height() && *col < ss.width() {
                    outbound.insert(ss.get_index(*row, *col));
                }
            },
            ExprTree::Unary(u) => u.child.fill_outbound(ss, outbound),
            ExprTree::Binary(b) => {
                b.left.fill_outbound(ss, outbound);
                b.right.fill_outbound(ss, outbound);
            },
        }
        assert(outbound@ =~= old(outbound)@.union(refs(self@, ss@.width, ss@.height)));
    }
}

impl UnaryOp {
    /// Applies the operator to a value.
    pub fn apply(&self, val: ExprResult) -> (r: ExprResult)
        ensures
            r@ == apply_unary(*self, val@),
    {
        match self {
            UnaryOp::Not => ExprResult::Num(Number::minus_one()).mul(val),
        }
    }
}

impl BinaryOp {
    /// Applies the operator to two values.
    pub fn apply(&self, val1: ExprResult, val2: ExprResult) -> (r: ExprResult)
        ensures
            r@ == apply_binary(*self, val1@, val2@),
    {
        match self {
            BinaryOp::Sum => val1.add(val2),
            BinaryOp::Sub => val1.sub(val2),
            BinaryOp::Mul => val1.mul(val2),
            BinaryOp::Div => val1.div(val2),
        }
    }
}

} // verus!
