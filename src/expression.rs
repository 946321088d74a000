use vstd::prelude::*;

use crate::operator::{is_sentinel, is_unary, prec, Operator};
use crate::token::{Number, Token};

verus! {

/// Expression tree built from a parenthesised run of tokens.
#[derive(Debug, PartialEq)]
pub enum Expression {
    Number(Number),
    String(String),
    Name(String),
    Binary(Operator, Box<Expression>, Box<Expression>),
    Unary(Operator, Box<Expression>),
    Call(String, Vec<Expression>),
    Invalid(String),
}

/// Mathematical model of an [`Expression`]: texts as character sequences,
/// call arguments as a sequence.
pub enum Tree {
    Number(Number),
    String(Seq<char>),
    Name(Seq<char>),
    Binary(Operator, Box<Tree>, Box<Tree>),
    Unary(Operator, Box<Tree>),
    Call(Seq<char>, Seq<Tree>),
    Invalid(Seq<char>),
}

/// The model of an expression.
pub open spec fn tree(e: Expression) -> Tree
    decreases e,
{
    match e {
        Expression::Number(n) => Tree::Number(n),
        Expression::String(s) => Tree::String(s@),
        Expression::Name(s) => Tree::Name(s@),
        Expression::Binary(op, l, r) => Tree::Binary(op, Box::new(tree(*l)), Box::new(tree(*r))),
        Expression::Unary(op, c) => Tree::Unary(op, Box::new(tree(*c))),
        Expression::Call(n, args) => Tree::Call(n@, trees(args@)),
        Expression::Invalid(s) => Tree::Invalid(s@),
    }
}

/// The models of a sequence of expressions.
pub open spec fn trees(s: Seq<Expression>) -> Seq<Tree>
    decreases s,
{
    if s.len() == 0 {
        Seq::empty()
    } else {
        trees(s.drop_last()).push(tree(s.last()))
    }
}

/// `trees` keeps length and position.
pub proof fn lemma_trees_index(s: Seq<Expression>)
    ensures
        trees(s).len() == s.len(),
        forall|i: int| 0 <= i < s.len() ==> #[trigger] trees(s)[i] == tree(s[i]),
    decreases s.len(),
{
    if s.len() > 0 {
        lemma_trees_index(s.drop_last());
    }
}

/// `trees` of an extended sequence extends the models.
pub proof fn lemma_trees_push(s: Seq<Expression>, e: Expression)
    ensures
        trees(s.push(e)) == trees(s).push(tree(e)),
{
    assert(s.push(e).drop_last() =~= s);
}

/// `trees` commutes with taking a subrange.
pub proof fn lemma_trees_subrange(s: Seq<Expression>, i: int, j: int)
    requires
        0 <= i <= j <= s.len(),
    ensures
        trees(s.subrange(i, j)) == trees(s).subrange(i, j),
{
    lemma_trees_index(s);
    lemma_trees_index(s.subrange(i, j));
    assert(trees(s.subrange(i, j)) =~= trees(s).subrange(i, j));
}

/// State of the shunting-yard construction.
pub struct Yard {
    pub values: Seq<Tree>,
    pub operators: Seq<Operator>,
    /// For each pending call, the number of values below its arguments.
    pub marks: Seq<int>,
    pub unary: bool,
    pub callable: bool,
    pub failed: bool,
}

/// The state before the first token.
pub open spec fn initial_yard() -> Yard {
    Yard {
        values: Seq::empty(),
        operators: Seq::empty(),
        marks: Seq::empty(),
        unary: true,
        callable: false,
        failed: false,
    }
}

/// The state after an unbalanced parenthesis or an unexpected token.
pub open spec fn failed_yard() -> Yard {
    Yard {
        values: Seq::empty(),
        operators: Seq::empty(),
        marks: Seq::empty(),
        unary: false,
        callable: false,
        failed: true,
    }
}

/// Pops the top operator and replaces its operands by the node it forms.
pub open spec fn reduce(y: Yard) -> Yard {
    let op = y.operators.last();
    let vs = y.values;
    let values = if vs.len() == 0 {
        seq![Tree::Invalid("Missing operand"@)]
    } else if is_unary(op) {
        vs.drop_last().push(Tree::Unary(op, Box::new(vs.last())))
    } else if vs.len() == 1 {
        seq![Tree::Invalid("Invalid unary operator"@)]
    } else {
        vs.drop_last().drop_last().push(
            Tree::Binary(op, Box::new(vs[vs.len() - 2]), Box::new(vs.last())),
        )
    };
    Yard { values, operators: y.operators.drop_last(), ..y }
}

/// Reduces operators while the top one binds tighter than `threshold`.
pub open spec fn drain(y: Yard, threshold: int) -> Yard
    decreases y.operators.len(),
{
    if y.operators.len() > 0 && prec(y.operators.last()) > threshold {
        drain(reduce(y), threshold)
    } else {
        y
    }
}

/// After a closing parenthesis: turns a pending call into a `Call` node.
pub open spec fn close_call(y: Yard) -> Yard {
    if y.operators.len() > 0 && y.operators.last() == Operator::Call {
        let mark = y.marks.last();
        if y.marks.len() > 0 && 1 <= mark <= y.values.len() && y.values[mark - 1] is Name {
            Yard {
                values: y.values.subrange(0, mark - 1).push(
                    Tree::Call(y.values[mark - 1]->Name_0, y.values.subrange(mark, y.values.len() as int)),
                ),
                operators: y.operators.drop_last(),
                marks: y.marks.drop_last(),
                ..y
            }
        } else {
            failed_yard()
        }
    } else {
        y
    }
}

/// One token of the shunting-yard construction. Local label references and
/// macro arguments stand as names.
pub open spec fn step(y: Yard, t: Token) -> Yard {
    if y.failed {
        y
    } else {
        match t {
            Token::Number(n) => Yard {
                values: y.values.push(Tree::Number(n)),
                unary: false,
                callable: false,
                ..y
            },
            Token::String(s) => Yard {
                values: y.values.push(Tree::String(s@)),
                unary: false,
                callable: false,
                ..y
            },
            Token::Name(s) | Token::LocalLabelRef(s) | Token::MacroArg(s) => Yard {
                values: y.values.push(Tree::Name(s@)),
                unary: false,
                callable: true,
                ..y
            },
            Token::LParen => if y.callable {
                Yard {
                    operators: y.operators.push(Operator::Call).push(Operator::Paren),
                    marks: y.marks.push(y.values.len() as int),
                    unary: true,
                    callable: false,
                    ..y
                }
            } else {
                Yard {
                    operators: y.operators.push(Operator::Paren),
                    unary: true,
                    callable: false,
                    ..y
                }
            },
            Token::Operator(op) => if y.unary {
                Yard {
                    operators: y.operators.push(
                        if op == Operator::Minus {
                            Operator::UnaryMinus
                        } else {
                            op
                        },
                    ),
                    unary: true,
                    callable: false,
                    ..y
                }
            } else {
                let d = drain(y, prec(op));
                Yard { operators: d.operators.push(op), unary: true, callable: false, ..d }
            },
            Token::RParen => {
                let d = drain(y, 0);
                if d.operators.len() > 0 && d.operators.last() == Operator::Paren {
                    let c = close_call(Yard { operators: d.operators.drop_last(), ..d });
                    if c.failed {
                        c
                    } else {
                        Yard { unary: false, callable: false, ..c }
                    }
                } else {
                    failed_yard()
                }
            },
            Token::Comma => {
                let d = drain(y, 0);
                if d.operators.len() > 0 && d.operators.last() == Operator::Paren {
                    Yard { unary: false, callable: false, ..d }
                } else {
                    failed_yard()
                }
            },
            _ => failed_yard(),
        }
    }
}

/// The state after the tokens `ts`, from `y`.
pub open spec fn run(y: Yard, ts: Seq<Token>) -> Yard
    decreases ts.len(),
{
    if ts.len() == 0 {
        y
    } else {
        step(run(y, ts.drop_last()), ts.last())
    }
}

/// The expression that a state stands for once all tokens are read.
pub open spec fn finish(y: Yard) -> Tree {
    if !y.failed && y.operators.len() == 0 && y.values.len() == 1 {
        y.values[0]
    } else {
        Tree::Invalid("Malformed expression"@)
    }
}

/// The expression built from a token sequence.
pub open spec fn build(ts: Seq<Token>) -> Tree {
    finish(run(initial_yard(), ts))
}

/// Working state of [`Expression::new`]: the value and operator stacks.
struct ShuntingYard {
    values: Vec<Expression>,
    operators: Vec<Operator>,
    marks: Vec<usize>,
    unary: bool,
    callable: bool,
    failed: bool,
}

impl ShuntingYard {
    spec fn model(&self) -> Yard {
        Yard {
            values: trees(self.values@),
            operators: self.operators@,
            marks: self.marks@.map_values(|m: usize| m as int),
            unary: self.unary,
            callable: self.callable,
            failed: self.failed,
        }
    }

    fn push_value(&mut self, e: Expression)
        ensures
            final(self).model() == (Yard { values: old(self).model().values.push(tree(e)), ..old(self).model() }),
    {
        proof {
            lemma_trees_push(self.values@, e);
        }
        self.values.push(e);
    }

    fn fail(&mut self)
        ensures
            final(self).model() == failed_yard(),
    {
        self.values.clear();
        self.operators.clear();
        self.marks.clear();
        self.unary = false;
        self.callable = false;
        self.failed = true;
        assert(self.marks@.map_values(|m: usize| m as int) =~= Seq::<int>::empty());
    }

    fn reduce(&mut self)
        requires
            old(self).operators@.len() > 0,
        ensures
            final(self).model() == reduce(old(self).model()),
    {
        let ghost y = self.model();
        let ghost vs = self.values@;
        proof {
            lemma_trees_index(vs);
        }
        let op = match self.operators.pop() {
            Some(o) => o,
            None => Operator::Paren,
        };
        match self.values.pop() {
            None => {
                self.push_value(Expression::Invalid(String::from_str("Missing operand")));
                assert(trees(Seq::<Expression>::empty()) =~= Seq::<Tree>::empty());
                assert(self.model().values =~= reduce(y).values);
            },
            Some(right) => {
                assert(trees(self.values@) == y.values.drop_last()) by {
                    assert(vs.drop_last() =~= self.values@);
                }
                if op == Operator::UnaryMinus || op == Operator::UnaryNot {
                    self.push_value(Expression::Unary(op, Box::new(right)));
                } else {
                    let ghost mid = self.values@;
                    proof {
                        lemma_trees_index(mid);
                    }
                    match self.values.pop() {
                        Some(left) => {
                            assert(trees(self.values@) == y.values.drop_last().drop_last()) by {
                                assert(mid.drop_last() =~= self.values@);
                            }
                            self.push_value(Expression::Binary(op, Box::new(left), Box::new(right)));
                        },
                        None => {
                            self.push_value(
                                Expression::Invalid(String::from_str("Invalid unary operator")),
                            );
                            assert(self.model().values =~= reduce(y).values);
                        },
                    }
                }
            },
        }
        assert(self.marks@.map_values(|m: usize| m as int) == y.marks);
    }

    fn drain(&mut self, threshold: i32)
        requires
            0 <= threshold,
        ensures
            final(self).model() == drain(old(self).model(), threshold as int),
    {
        while self.operators.len() > 0 && self.operators[self.operators.len() - 1].get_prec()
            > threshold
            invariant
                drain(self.model(), threshold as int) == drain(old(self).model(), threshold as int),
            decreases self.operators@.len(),
        {
            self.reduce();
        }
    }

    fn close_call(&mut self)
        ensures
            final(self).model() == close_call(old(self).model()),
    {
        let ghost y = self.model();
        let n = self.operators.len();
        if n > 0 && self.operators[n - 1] == Operator::Call {
            proof {
                lemma_trees_index(self.values@);
            }
            let len = self.values.len();
            match self.marks.pop() {
                Some(mark) => {
                    if 1 <= mark && mark <= len && matches!(self.values[mark - 1], Expression::Name(_)) {
                        self.operators.pop();
                        let ghost vs = self.values@;
                        let args = self.values.split_off(mark);
                        match self.values.pop() {
                            Some(Expression::Name(name)) => {
                                proof {
                                    lemma_trees_subrange(vs, mark as int, len as int);
                                    lemma_trees_subrange(vs, 0, mark - 1);
                                    assert(vs.subrange(0, mark as int).drop_last() =~= vs.subrange(0, mark - 1));
                                }
                                self.push_value(Expression::Call(name, args));
                                assert(self.marks@.map_values(|m: usize| m as int) =~= y.marks.drop_last());
                                assert(self.operators@ =~= y.operators.drop_last());
                            },
                            _ => {
                                self.fail();
                            },
                        }
                    } else {
                        self.fail();
                    }
                },
                None => {
                    self.fail();
                },
            }
        }
    }

    fn step(&mut self, t: &Token)
        ensures
            final(self).model() == step(old(self).model(), *t),
    {
        if self.failed {
            return;
        }
        let ghost y = self.model();
        match t {
            Token::Number(n) => {
                self.push_value(Expression::Number(*n));
                self.unary = false;
                self.callable = false;
            },
            Token::String(s) => {
                self.push_value(Expression::String(s.clone()));
                self.unary = false;
                self.callable = false;
            },
            Token::Name(s) => {
                self.push_value(Expression::Name(s.clone()));
                self.unary = false;
                self.callable = true;
            },
            Token::LocalLabelRef(s) => {
                self.push_value(Expression::Name(s.clone()));
                self.unary = false;
                self.callable = true;
            },
            Token::MacroArg(s) => {
                self.push_value(Expression::Name(s.clone()));
                self.unary = false;
                self.callable = true;
            },
            Token::LParen => {
                if self.callable {
                    self.operators.push(Operator::Call);
                    self.marks.push(self.values.len());
                    proof {
                        lemma_trees_index(self.values@);
                    }
                    assert(self.marks@.map_values(|m: usize| m as int) =~= y.marks.push(
                        y.values.len() as int,
                    ));
                }
                self.operators.push(Operator::Paren);
                self.unary = true;
                self.callable = false;
            },
            Token::Operator(op) => {
                if self.unary {
                    let o = if *op == Operator::Minus {
                        Operator::UnaryMinus
                    } else {
                        *op
                    };
                    self.operators.push(o);
                } else {
                    self.drain(op.get_prec());
                    self.operators.push(*op);
                }
                self.unary = true;
                self.callable = false;
            },
            Token::RParen => {
                self.drain(0);
                let n = self.operators.len();
                if n > 0 && self.operators[n - 1] == Operator::Paren {
                    self.operators.pop();
                    self.close_call();
                    if !self.failed {
                        self.unary = false;
                        self.callable = false;
                    }
                } else {
                    self.fail();
                }
            },
            Token::Comma => {
                self.drain(0);
                let n = self.operators.len();
                if n > 0 && self.operators[n - 1] == Operator::Paren {
                    self.unary = false;
                    self.callable = false;
                } else {
                    self.fail();
                }
            },
            _ => {
                self.fail();
            },
        }
    }
}

impl Expression {
    /// Builds an expression tree from a run of tokens wrapped in parentheses,
    /// by the shunting-yard algorithm. Malformed input gives an `Invalid`
    /// node.
    pub fn new(tokens: Vec<Token>) -> (r: Expression)
        ensures
            tree(r) == build(tokens@),
    {
        let mut yard = ShuntingYard {
            values: Vec::new(),
            operators: Vec::new(),
            marks: Vec::new(),
            unary: true,
            callable: false,
            failed: false,
        };
        assert(yard.marks@.map_values(|m: usize| m as int) =~= Seq::<int>::empty());
        let mut i: usize = 0;
        while i < tokens.len()
            invariant
                i <= tokens@.len(),
                yard.model() == run(initial_yard(), tokens@.subrange(0, i as int)),
            decreases tokens@.len() - i,
        {
            let ghost before = tokens@.subrange(0, i as int);
            yard.step(&tokens[i]);
            i = i + 1;
            assert(tokens@.subrange(0, i as int).drop_last() =~= before);
        }
        assert(tokens@.subrange(0, i as int) =~= tokens@);
        let ghost y = yard.model();
        assert(y == run(initial_yard(), tokens@));
        proof {
            lemma_trees_index(yard.values@);
        }
        if !yard.failed && yard.operators.len() == 0 && yard.values.len() == 1 {
            proof {
                lemma_trees_index(yard.values@);
            }
            assert(y.values.len() == 1);
            assert(build(tokens@) == y.values[0]);
            match yard.values.pop() {
                Some(e) => {
                    assert(tree(e) == y.values[0]);
                    e
                },
                None => Expression::Invalid(String::from_str("Malformed expression")),
            }
        } else {
            let m = String::from_str("Malformed expression");
            assert(build(tokens@) == Tree::Invalid("Malformed expression"@));
            Expression::Invalid(m)
        }
    }
}

/// Operators that combine two operands.
pub open spec fn is_binary_operator(op: Operator) -> bool {
    !is_sentinel(op) && !is_unary(op)
}

/// The tokens `( a op1 b op2 c )`.
pub open spec fn chain(a: Number, op1: Operator, b: Number, op2: Operator, c: Number) -> Seq<Token> {
    seq![
        Token::LParen,
        Token::Number(a),
        Token::Operator(op1),
        Token::Number(b),
        Token::Operator(op2),
        Token::Number(c),
        Token::RParen,
    ]
}

/// A number leaf.
pub open spec fn leaf(n: Number) -> Box<Tree> {
    Box::new(Tree::Number(n))
}

proof fn lemma_run_chain(a: Number, op1: Operator, b: Number, op2: Operator, c: Number)
    ensures
        run(initial_yard(), chain(a, op1, b, op2, c)) == step(
            step(
                step(
                    step(
                        step(
                            step(step(initial_yard(), Token::LParen), Token::Number(a)),
                            Token::Operator(op1),
                        ),
                        Token::Number(b),
                    ),
                    Token::Operator(op2),
                ),
                Token::Number(c),
            ),
            Token::RParen,
        ),
{
    let ts = chain(a, op1, b, op2, c);
    assert(ts.subrange(0, 6) =~= ts.drop_last());
    assert(ts.subrange(0, 5) =~= ts.subrange(0, 6).drop_last());
    assert(ts.subrange(0, 4) =~= ts.subrange(0, 5).drop_last());
    assert(ts.subrange(0, 3) =~= ts.subrange(0, 4).drop_last());
    assert(ts.subrange(0, 2) =~= ts.subrange(0, 3).drop_last());
    assert(ts.subrange(0, 1) =~= ts.subrange(0, 2).drop_last());
    assert(ts.subrange(0, 0) =~= ts.subrange(0, 1).drop_last());
    reveal_with_fuel(run, 8);
}

/// In `a op1 b op2 c` with operators of different precedence, the tighter
/// operator takes its operands first: the tree is `(a op1 b) op2 c` exactly
/// when `op1` binds at least as tightly as `op2`, and `a op1 (b op2 c)`
/// otherwise.
pub proof fn lemma_precedence(a: Number, op1: Operator, b: Number, op2: Operator, c: Number)
    requires
        is_binary_operator(op1),
        is_binary_operator(op2),
        prec(op1) != prec(op2),
    ensures
        build(chain(a, op1, b, op2, c)) == if prec(op1) >= prec(op2) {
            Tree::Binary(op2, Box::new(Tree::Binary(op1, leaf(a), leaf(b))), leaf(c))
        } else {
            Tree::Binary(op1, leaf(a), Box::new(Tree::Binary(op2, leaf(b), leaf(c))))
        },
{
    lemma_run_chain(a, op1, b, op2, c);
    let y1 = step(initial_yard(), Token::LParen);
    let y2 = step(y1, Token::Number(a));
    let y3 = step(y2, Token::Operator(op1));
    assert(drain(y2, prec(op1)) == y2);
    let y4 = step(y3, Token::Number(b));
    let y5 = step(y4, Token::Operator(op2));
    let y6 = step(y5, Token::Number(c));
    let d6 = drain(y6, 0);
    if prec(op1) > prec(op2) {
        let r = reduce(y4);
        assert(r.operators == seq![Operator::Paren]);
        assert(drain(r, prec(op2)) == r);
        assert(drain(y4, prec(op2)) == r);
        let r6 = reduce(y6);
        assert(drain(r6, 0) == r6);
        assert(d6 == r6);
    } else {
        assert(drain(y4, prec(op2)) == y4);
        let r1 = reduce(y6);
        let r2 = reduce(r1);
        assert(drain(r2, 0) == r2);
        assert(drain(r1, 0) == r2);
        assert(d6 == r2);
    }
}

/// Operators of equal precedence associate to the right:
/// `a op1 b op2 c` builds `a op1 (b op2 c)`.
pub proof fn lemma_equal_precedence(a: Number, op1: Operator, b: Number, op2: Operator, c: Number)
    requires
        is_binary_operator(op1),
        is_binary_operator(op2),
        prec(op1) == prec(op2),
    ensures
        build(chain(a, op1, b, op2, c)) == Tree::Binary(
            op1,
            leaf(a),
            Box::new(Tree::Binary(op2, leaf(b), leaf(c))),
        ),
{
    lemma_run_chain(a, op1, b, op2, c);
    let y1 = step(initial_yard(), Token::LParen);
    let y2 = step(y1, Token::Number(a));
    assert(drain(y2, prec(op1)) == y2);
    let y3 = step(y2, Token::Operator(op1));
    let y4 = step(y3, Token::Number(b));
    assert(drain(y4, prec(op2)) == y4);
    let y5 = step(y4, Token::Operator(op2));
    let y6 = step(y5, Token::Number(c));
    let r1 = reduce(y6);
    let r2 = reduce(r1);
    assert(drain(r2, 0) == r2);
    assert(drain(r1, 0) == r2);
    assert(drain(y6, 0) == r2);
}

/// Each node's operator fits it: `Binary` nodes hold binary operators,
/// `Unary` nodes unary ones, and no stack sentinel appears anywhere.
pub open spec fn well_formed(t: Tree) -> bool
    decreases t,
{
    match t {
        Tree::Binary(op, l, r) => is_binary_operator(op) && well_formed(*l) && well_formed(*r),
        Tree::Unary(op, c) => is_unary(op) && well_formed(*c),
        Tree::Call(_, args) => all_well_formed(args),
        _ => true,
    }
}

/// Every tree of `s` is well formed.
pub open spec fn all_well_formed(s: Seq<Tree>) -> bool
    decreases s,
{
    if s.len() == 0 {
        true
    } else {
        all_well_formed(s.drop_last()) && well_formed(s.last())
    }
}

proof fn lemma_all_well_formed(s: Seq<Tree>)
    ensures
        all_well_formed(s) <==> forall|i: int| 0 <= i < s.len() ==> well_formed(#[trigger] s[i]),
    decreases s.len(),
{
    if s.len() > 0 {
        lemma_all_well_formed(s.drop_last());
        if forall|i: int| 0 <= i < s.len() ==> well_formed(#[trigger] s[i]) {
            assert forall|i: int| 0 <= i < s.drop_last().len() implies well_formed(
                #[trigger] s.drop_last()[i],
            ) by {
                assert(s.drop_last()[i] == s[i]);
            }
        }
        if all_well_formed(s) {
            assert forall|i: int| 0 <= i < s.len() implies well_formed(#[trigger] s[i]) by {
                if i < s.len() - 1 {
                    assert(s.drop_last()[i] == s[i]);
                }
            }
        }
    }
}

/// The stacks of a state hold only well-formed trees.
pub open spec fn yard_ok(y: Yard) -> bool {
    forall|i: int| 0 <= i < y.values.len() ==> well_formed(#[trigger] y.values[i])
}

proof fn lemma_reduce_ok(y: Yard)
    requires
        yard_ok(y),
        y.operators.len() > 0,
        !is_sentinel(y.operators.last()),
    ensures
        yard_ok(reduce(y)),
{
    let r = reduce(y);
    let vs = y.values;
    assert forall|i: int| 0 <= i < r.values.len() implies well_formed(#[trigger] r.values[i]) by {
        if vs.len() >= 2 && i < r.values.len() - 1 {
            assert(r.values[i] == vs[i]);
        } else if vs.len() >= 1 && i < r.values.len() - 1 {
            assert(r.values[i] == vs[i]);
        }
    }
}

proof fn lemma_drain_ok(y: Yard, threshold: int)
    requires
        yard_ok(y),
        threshold >= 0,
    ensures
        yard_ok(drain(y, threshold)),
    decreases y.operators.len(),
{
    if y.operators.len() > 0 && prec(y.operators.last()) > threshold {
        lemma_reduce_ok(y);
        lemma_drain_ok(reduce(y), threshold);
    }
}

proof fn lemma_step_ok(y: Yard, t: Token)
    requires
        yard_ok(y),
    ensures
        yard_ok(step(y, t)),
{
    if !y.failed {
        match t {
            Token::Operator(op) => {
                if !y.unary {
                    lemma_drain_ok(y, prec(op));
                }
            },
            Token::RParen => {
                lemma_drain_ok(y, 0);
                let d = drain(y, 0);
                let p = Yard { operators: d.operators.drop_last(), ..d };
                if p.operators.len() > 0 && p.operators.last() == Operator::Call {
                    let mark = p.marks.last();
                    if p.marks.len() > 0 && 1 <= mark <= p.values.len() && p.values[mark - 1] is Name {
                        let args = p.values.subrange(mark, p.values.len() as int);
                        lemma_all_well_formed(args);
                        let c = close_call(p);
                        assert forall|i: int| 0 <= i < c.values.len() implies well_formed(
                            #[trigger] c.values[i],
                        ) by {
                            if i < c.values.len() - 1 {
                                assert(c.values[i] == p.values[i]);
                            }
                        }
                    }
                }
            },
            Token::Comma => {
                lemma_drain_ok(y, 0);
            },
            _ => {},
        }
    }
}

proof fn lemma_run_ok(ts: Seq<Token>)
    ensures
        yard_ok(run(initial_yard(), ts)),
    decreases ts.len(),
{
    if ts.len() > 0 {
        lemma_run_ok(ts.drop_last());
        lemma_step_ok(run(initial_yard(), ts.drop_last()), ts.last());
    }
}

/// Whatever the tokens, the built expression is well formed: every binary
/// node combines two operands with a binary operator, every unary node one
/// operand with a unary operator, and the stack sentinels never reach the
/// tree.
pub proof fn lemma_build_well_formed(ts: Seq<Token>)
    ensures
        well_formed(build(ts)),
{
    lemma_run_ok(ts);
}

} // verus!
