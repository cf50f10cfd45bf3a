//! Expressions: their tokens, their postfix form, their variables and the
//! expression tree that the postfix form denotes.
use vstd::prelude::*;

use crate::lexer::{lex, lex_spec};
use crate::postfix::{build_postfix, postfix_of};
use crate::text::views_of;
use crate::token::{token_views, Token, TokenView};

verus! {

/// What can go wrong with an expression.
#[derive(Debug, Clone)]
pub enum Error {
    InvalidExpression(String),
    VariableUnassigned(String),
    IsNotOperator(String),
}

/// The names of the variables among `ts`, in order of appearance
/// (repetitions kept).
pub open spec fn variables_of(ts: Seq<TokenView>) -> Seq<Seq<char>>
    decreases ts.len(),
{
    if ts.len() == 0 {
        Seq::<Seq<char>>::empty()
    } else {
        let rest = variables_of(ts.drop_last());
        match ts.last() {
            TokenView::Variable(name) => rest.push(name),
            _ => rest,
        }
    }
}

/// An expression tree: a numeric literal (kept as its text), a variable, or
/// an operator applied to two subexpressions.
#[derive(Debug, PartialEq)]
pub enum Expr {
    Value(String),
    Variable(String),
    Binary { op: Token, left: Box<Expr>, right: Box<Expr> },
}

/// The mathematical view of an expression tree.
pub enum ExprView {
    Value(Seq<char>),
    Variable(Seq<char>),
    Binary { op: TokenView, left: Box<ExprView>, right: Box<ExprView> },
}

pub open spec fn expr_view(e: Expr) -> ExprView
    decreases e,
{
    match e {
        Expr::Value(s) => ExprView::Value(s@),
        Expr::Variable(s) => ExprView::Variable(s@),
        Expr::Binary { op, left, right } => ExprView::Binary {
            op: op@,
            left: Box::new(expr_view(*left)),
            right: Box::new(expr_view(*right)),
        },
    }
}

impl View for Expr {
    type V = ExprView;

    open spec fn view(&self) -> ExprView {
        expr_view(*self)
    }
}

pub open spec fn expr_views(es: Seq<Expr>) -> Seq<ExprView> {
    es.map_values(|e: Expr| e@)
}

/// The leaf that an operand token stands for.
pub open spec fn leaf_of(t: TokenView) -> ExprView
    recommends
        t.is_val(),
{
    match t {
        TokenView::Value(s) => ExprView::Value(s),
        TokenView::Variable(s) => ExprView::Variable(s),
        _ => ExprView::Value(Seq::<char>::empty()),
    }
}

/// The stack machine that reads postfix tokens: an operand is pushed; an
/// operator takes the top as its right operand and the entry below as its
/// left operand, and fails when there are fewer than two; anything else is
/// skipped.
pub open spec fn rpn_run(toks: Seq<TokenView>) -> Option<Seq<ExprView>>
    decreases toks.len(),
{
    if toks.len() == 0 {
        Some(Seq::<ExprView>::empty())
    } else {
        match rpn_run(toks.drop_last()) {
            None => None,
            Some(st) => {
                let t = toks.last();
                if t.is_val() {
                    Some(st.push(leaf_of(t)))
                } else if t.is_op() {
                    if st.len() >= 2 {
                        Some(
                            st.drop_last().drop_last().push(
                                ExprView::Binary {
                                    op: t,
                                    left: Box::new(st[st.len() - 2]),
                                    right: Box::new(st[st.len() - 1]),
                                },
                            ),
                        )
                    } else {
                        None
                    }
                } else {
                    Some(st)
                }
            },
        }
    }
}

/// What postfix tokens denote: the bottom entry of the stack once every
/// token is read, if no operator lacked operands and the stack is not empty.
pub open spec fn rpn_result(toks: Seq<TokenView>) -> Option<ExprView> {
    match rpn_run(toks) {
        Some(st) => if st.len() > 0 {
            Some(st[0])
        } else {
            None
        },
        None => None,
    }
}

/// An expression read from text.
pub struct Parser {
    infix: Vec<Token>,
    postfix: Vec<Token>,
    vars: Vec<String>,
}

/// The mathematical view of a parser: its tokens in reading order and in
/// postfix order, and the names of its variables.
pub struct ParserView {
    pub infix: Seq<TokenView>,
    pub postfix: Seq<TokenView>,
    pub vars: Seq<Seq<char>>,
}

impl View for Parser {
    type V = ParserView;

    closed spec fn view(&self) -> ParserView {
        ParserView {
            infix: token_views(self.infix@),
            postfix: token_views(self.postfix@),
            vars: views_of(self.vars@),
        }
    }
}

/// The names of the variable tokens, in order.
fn collect_vars(tokens: &Vec<Token>) -> (vars: Vec<String>)
    ensures
        views_of(vars@) == variables_of(token_views(tokens@)),
{
    let mut vars: Vec<String> = Vec::new();
    let n = tokens.len();
    let mut i: usize = 0;
    assert(token_views(tokens@).take(0) =~= Seq::<TokenView>::empty());
    assert(views_of(vars@) =~= Seq::<Seq<char>>::empty());
    while i < n
        invariant
            n == tokens@.len(),
            i <= n,
            views_of(vars@) == variables_of(token_views(tokens@).take(i as int)),
        decreases n - i,
    {
        assert(token_views(tokens@).take(i + 1).drop_last() =~= token_views(tokens@).take(
            i as int,
        ));
        assert(token_views(tokens@).take(i + 1).last() == tokens@[i as int]@);
        match &tokens[i] {
            Token::Variable(v) => {
                let ghost before = vars@;
                vars.push(v.clone());
                assert(views_of(vars@) =~= views_of(before).push(v@));
            },
            _ => {},
        }
        i = i + 1;
    }
    assert(token_views(tokens@).take(n as int) =~= token_views(tokens@));
    vars
}

/// A copy of a list of tokens.
fn copy_tokens(tokens: &Vec<Token>) -> (r: Vec<Token>)
    ensures
        r@ == tokens@,
{
    let mut r: Vec<Token> = Vec::new();
    let n = tokens.len();
    let mut i: usize = 0;
    while i < n
        invariant
            n == tokens@.len(),
            i <= n,
            r@ == tokens@.take(i as int),
        decreases n - i,
    {
        r.push(tokens[i].duplicate());
        i = i + 1;
        assert(r@ =~= tokens@.take(i as int));
    }
    assert(tokens@.take(n as int) =~= tokens@);
    r
}

/// The leaf for an operand token.
fn leaf(t: &Token) -> (e: Expr)
    requires
        t@.is_val(),
    ensures
        e@ == leaf_of(t@),
{
    match t {
        Token::Value(s) => Expr::Value(s.clone()),
        Token::Variable(s) => Expr::Variable(s.clone()),
        _ => Expr::Value(String::new()),
    }
}

impl Parser {
    /// Reads an expression: its tokens, their postfix order and its
    /// variables. This never fails.
    pub fn new(expression: String) -> (r: Result<Parser, Error>)
        ensures
            r matches Ok(p) && p@.infix == lex_spec(expression@) && p@.postfix == postfix_of(
                lex_spec(expression@),
            ) && p@.vars == variables_of(lex_spec(expression@)),
    {
        match lex(expression) {
            Ok(i) => {
                let vars = collect_vars(&i);
                let infix = copy_tokens(&i);
                let postfix = build_postfix(i);
                let p = Parser { infix: infix, postfix: postfix, vars: vars };
                Ok(p)
            },
            Err(e) => Err(e),
        }
    }

    /// The names of the expression's variables, in order of appearance.
    pub fn vars(&self) -> (r: Vec<String>)
        ensures
            views_of(r@) == self@.vars,
    {
        let mut r: Vec<String> = Vec::new();
        let n = self.vars.len();
        let mut i: usize = 0;
        while i < n
            invariant
                n == self.vars@.len(),
                i <= n,
                r@ == self.vars@.take(i as int),
            decreases n - i,
        {
            r.push(self.vars[i].clone());
            i = i + 1;
            assert(r@ =~= self.vars@.take(i as int));
        }
        assert(self.vars@.take(n as int) =~= self.vars@);
        r
    }

    /// The expression tree that the postfix tokens denote; `None` when an
    /// operator lacks operands or there is no operand at all.
    pub fn expression(&self) -> (r: Option<Expr>)
        ensures
            match r {
                Some(e) => rpn_result(self@.postfix) == Some(e@),
                None => rpn_result(self@.postfix) is None,
            },
    {
        let toks = &self.postfix;
        let n = toks.len();
        let mut stack: Vec<Expr> = Vec::new();
        let mut i: usize = 0;
        assert(token_views(toks@).take(0) =~= Seq::<TokenView>::empty());
        assert(expr_views(stack@) =~= Seq::<ExprView>::empty());
        while i < n
            invariant
                n == toks@.len(),
                i <= n,
                rpn_run(token_views(toks@).take(i as int)) == Some(expr_views(stack@)),
                self@.postfix == token_views(toks@),
            decreases n - i,
        {
            let ghost pre = token_views(toks@).take(i as int);
            assert(token_views(toks@).take(i + 1).drop_last() =~= pre);
            assert(token_views(toks@).take(i + 1).last() == toks@[i as int]@);
            let t = &toks[i];
            if t.is_val() {
                let e = leaf(t);
                let ghost before = stack@;
                stack.push(e);
                assert(expr_views(stack@) =~= expr_views(before).push(e@));
            } else if t.is_op() {
                if stack.len() < 2 {
                    proof {
                        assert(expr_views(stack@).len() == stack@.len());
                        assert(rpn_run(token_views(toks@).take(i + 1)) is None);
                        lemma_rpn_failure_persists(token_views(toks@), i as int + 1);
                        assert(rpn_run(token_views(toks@)) is None);
                        assert(self@.postfix == token_views(toks@));
                        assert(rpn_result(self@.postfix) is None);
                    }
                    assert(token_views(toks@).take(n as int) =~= token_views(toks@));
                    return None;
                }
                let ghost before = expr_views(stack@);
                let right = stack.pop().unwrap();
                let left = stack.pop().unwrap();
                let e = Expr::Binary { op: t.duplicate(), left: Box::new(left), right: Box::new(right) };
                let ghost mid = stack@;
                stack.push(e);
                assert(expr_views(mid) =~= before.drop_last().drop_last());
                assert(expr_views(stack@) =~= expr_views(mid).push(e@));
            }
            i = i + 1;
        }
        assert(token_views(toks@).take(n as int) =~= token_views(toks@));
        if stack.len() == 0 {
            None
        } else {
            let ghost all = expr_views(stack@);
            let e = stack.remove(0);
            assert(all[0] == e@);
            Some(e)
        }
    }
}

/// Once an operator lacks operands, reading more tokens cannot recover.
pub proof fn lemma_rpn_failure_persists(toks: Seq<TokenView>, k: int)
    requires
        0 <= k <= toks.len(),
        rpn_run(toks.take(k)) is None,
    ensures
        rpn_run(toks) is None,
    decreases toks.len() - k,
{
    if k < toks.len() {
        assert(toks.take(k + 1).drop_last() =~= toks.take(k));
        lemma_rpn_failure_persists(toks, k + 1);
    } else {
        assert(toks.take(k) =~= toks);
    }
}

} // verus!
