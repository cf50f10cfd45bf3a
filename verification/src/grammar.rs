//! Why the postfix conversion is right: an expression tree written out with
//! the usual precedence and associativity rules (and parentheses only where
//! they are needed) converts to the tree's postfix order, which the stack
//! machine reads back as the same tree.
use vstd::prelude::*;

use crate::float_literal::is_float_literal;
use crate::lexer::{lemma_run_len_exact, lex_spec};
use crate::parser::{leaf_of, rpn_result, rpn_run, variables_of, ExprView};
use crate::postfix::{
    close_group, pops_before, postfix_of, push_operator, shunt, shunt_step, ShuntState,
};
use crate::token::{is_symbol_char, symbol_token, token_of, TokenView};

verus! {

/// How strongly an expression binds: the precedence of its operator, or 5
/// (above every operator) for a leaf.
pub open spec fn binding(e: ExprView) -> u64 {
    match e {
        ExprView::Binary { op, .. } => op.prec(),
        _ => 5,
    }
}

/// The left operand of `op` needs parentheses when it binds more loosely,
/// or as strongly and `op` groups to the right.
pub open spec fn needs_parens_left(op: TokenView, l: ExprView) -> bool {
    binding(l) < op.prec() || (binding(l) == op.prec() && op.assoc_right())
}

/// The right operand of `op` needs parentheses when it binds more loosely,
/// or as strongly and `op` groups to the left.
pub open spec fn needs_parens_right(op: TokenView, r: ExprView) -> bool {
    binding(r) < op.prec() || (binding(r) == op.prec() && op.assoc_left())
}

/// Tokens, in parentheses when asked.
pub open spec fn grouped(toks: Seq<TokenView>, parens: bool) -> Seq<TokenView> {
    if parens {
        seq![TokenView::LParen] + toks + seq![TokenView::RParen]
    } else {
        toks
    }
}

/// The token for a leaf.
pub open spec fn leaf_token(e: ExprView) -> TokenView {
    match e {
        ExprView::Value(s) => TokenView::Value(s),
        ExprView::Variable(s) => TokenView::Variable(s),
        _ => TokenView::Number,
    }
}

/// An expression tree written out in infix order, with parentheses only
/// where precedence and associativity require them.
pub open spec fn infix_tokens(e: ExprView) -> Seq<TokenView>
    decreases e,
{
    match e {
        ExprView::Binary { op, left, right } => grouped(
            infix_tokens(*left),
            needs_parens_left(op, *left),
        ) + seq![op] + grouped(infix_tokens(*right), needs_parens_right(op, *right)),
        _ => seq![leaf_token(e)],
    }
}

/// An expression tree in postfix order.
pub open spec fn postorder(e: ExprView) -> Seq<TokenView>
    decreases e,
{
    match e {
        ExprView::Binary { op, left, right } => postorder(*left) + postorder(*right) + seq![op],
        _ => seq![leaf_token(e)],
    }
}

/// Every inner node applies an operator.
pub open spec fn well_formed(e: ExprView) -> bool
    decreases e,
{
    match e {
        ExprView::Binary { op, left, right } => op.is_op() && well_formed(*left) && well_formed(
            *right,
        ),
        _ => true,
    }
}

/// The operators of `e` that are still on the stack once `e` has been read:
/// its operator and those of its right operand, unless that operand is in
/// parentheses.
pub open spec fn pending(e: ExprView) -> Seq<TokenView>
    decreases e,
{
    match e {
        ExprView::Binary { op, left, right } => seq![op] + if needs_parens_right(op, *right) {
            Seq::<TokenView>::empty()
        } else {
            pending(*right)
        },
        _ => Seq::<TokenView>::empty(),
    }
}

/// The part of `e`'s postfix order that is output once `e` has been read.
pub open spec fn done(e: ExprView) -> Seq<TokenView>
    decreases e,
{
    match e {
        ExprView::Binary { op, left, right } => postorder(*left) + if needs_parens_right(
            op,
            *right,
        ) {
            postorder(*right)
        } else {
            done(*right)
        },
        _ => seq![leaf_token(e)],
    }
}

/// The conversion run from a given state.
pub open spec fn shunt_from(st: ShuntState, toks: Seq<TokenView>) -> ShuntState
    decreases toks.len(),
{
    if toks.len() == 0 {
        st
    } else {
        shunt_step(shunt_from(st, toks.drop_last()), toks.last())
    }
}

/// The top of the operator stack lets `e` be read without disturbing what
/// lies below: it is absent, an open parenthesis, or an operator that binds
/// more loosely than `e` (or as strongly, when it groups to the right).
pub open spec fn stack_allows(ops: Seq<TokenView>, e: ExprView) -> bool {
    ||| ops.len() == 0
    ||| ops.last().is_lparen()
    ||| (ops.last().is_op() && (binding(e) > ops.last().prec() || (binding(e)
        == ops.last().prec() && ops.last().assoc_right())))
}

pub proof fn lemma_shunt_is_shunt_from(x: Seq<TokenView>)
    ensures
        shunt(x) == shunt_from(
            ShuntState { out: Seq::<TokenView>::empty(), ops: Seq::<TokenView>::empty() },
            x,
        ),
    decreases x.len(),
{
    if x.len() > 0 {
        lemma_shunt_is_shunt_from(x.drop_last());
    }
}

pub proof fn lemma_shunt_from_single(st: ShuntState, t: TokenView)
    ensures
        shunt_from(st, seq![t]) == shunt_step(st, t),
{
    reveal_with_fuel(shunt_from, 2);
    assert(seq![t].drop_last() =~= Seq::<TokenView>::empty());
}

pub proof fn lemma_shunt_from_add(st: ShuntState, a: Seq<TokenView>, b: Seq<TokenView>)
    ensures
        shunt_from(st, a + b) == shunt_from(shunt_from(st, a), b),
    decreases b.len(),
{
    if b.len() == 0 {
        assert(a + b =~= a);
    } else {
        assert((a + b).drop_last() =~= a + b.drop_last());
        assert((a + b).last() == b.last());
        lemma_shunt_from_add(st, a, b.drop_last());
    }
}

/// Operators that all give way to `p` leave the stack, reversed, until one
/// that does not.
pub proof fn lemma_push_operator_pops(st: ShuntState, base: Seq<TokenView>, ys: Seq<TokenView>, p: TokenView)
    requires
        st.ops == base + ys,
        forall|i: int| 0 <= i < ys.len() ==> pops_before(p, #[trigger] ys[i]),
        base.len() == 0 || !pops_before(p, base.last()),
    ensures
        push_operator(st, p) == (ShuntState { out: st.out + ys.reverse(), ops: base.push(p) }),
    decreases ys.len(),
{
    if ys.len() == 0 {
        assert(st.ops =~= base);
        assert(st.out + ys.reverse() =~= st.out);
    } else {
        assert(st.ops.last() == ys.last());
        let next = ShuntState { out: st.out.push(ys.last()), ops: st.ops.drop_last() };
        assert(next.ops =~= base + ys.drop_last());
        lemma_push_operator_pops(next, base, ys.drop_last(), p);
        assert(st.out.push(ys.last()) + ys.drop_last().reverse() =~= st.out + ys.reverse());
    }
}

/// A closing parenthesis moves the operators above the nearest open
/// parenthesis to the output, reversed, and drops that parenthesis.
pub proof fn lemma_close_group_pops(st: ShuntState, base: Seq<TokenView>, ys: Seq<TokenView>)
    requires
        st.ops == base.push(TokenView::LParen) + ys,
        forall|i: int| 0 <= i < ys.len() ==> !(#[trigger] ys[i]).is_lparen(),
    ensures
        close_group(st) == (ShuntState { out: st.out + ys.reverse(), ops: base }),
    decreases ys.len(),
{
    if ys.len() == 0 {
        assert(st.ops =~= base.push(TokenView::LParen));
        assert(st.ops.drop_last() =~= base);
        assert(st.out + ys.reverse() =~= st.out);
    } else {
        assert(st.ops.last() == ys.last());
        let next = ShuntState { out: st.out.push(ys.last()), ops: st.ops.drop_last() };
        assert(next.ops =~= base.push(TokenView::LParen) + ys.drop_last());
        lemma_close_group_pops(next, base, ys.drop_last());
        assert(st.out.push(ys.last()) + ys.drop_last().reverse() =~= st.out + ys.reverse());
    }
}

/// What is output and what is pending together make the postfix order, and
/// the pending operators bind at least as strongly as the expression.
pub proof fn lemma_pending(e: ExprView)
    requires
        well_formed(e),
    ensures
        done(e) + pending(e).reverse() == postorder(e),
        forall|i: int|
            0 <= i < pending(e).len() ==> (#[trigger] pending(e)[i]).is_op() && pending(e)[i].prec()
                >= binding(e),
    decreases e,
{
    match e {
        ExprView::Binary { op, left, right } => {
            lemma_pending(*right);
            let p = pending(e);
            if needs_parens_right(op, *right) {
                assert(p =~= seq![op]);
                assert(p.reverse() =~= seq![op]);
            } else {
                let pr = pending(*right);
                assert(p =~= seq![op] + pr);
                assert(p.reverse() =~= pr.reverse() + seq![op]);
                assert(done(e) + p.reverse() =~= postorder(*left) + (done(*right) + pr.reverse())
                    + seq![op]);
                assert forall|i: int| 0 <= i < p.len() implies (#[trigger] p[i]).is_op() && p[i].prec()
                    >= binding(e) by {
                    if i > 0 {
                        assert(p[i] == pr[i - 1]);
                    }
                }
            }
        },
        _ => {
            assert(pending(e).reverse() =~= Seq::<TokenView>::empty());
            assert(done(e) + pending(e).reverse() =~= done(e));
        },
    }
}

/// Reading a tree written out with the precedence rules outputs `done` and
/// leaves `pending` on the stack, above what was there.
pub proof fn lemma_shunt_tree(e: ExprView, st: ShuntState)
    requires
        well_formed(e),
        stack_allows(st.ops, e),
    ensures
        shunt_from(st, infix_tokens(e)) == (ShuntState {
            out: st.out + done(e),
            ops: st.ops + pending(e),
        }),
    decreases e,
{
    match e {
        ExprView::Binary { op, left, right } => {
            let l = *left;
            let r = *right;
            lemma_pending(l);
            lemma_pending(r);
            let gl = grouped(infix_tokens(l), needs_parens_left(op, l));
            let gr = grouped(infix_tokens(r), needs_parens_right(op, r));
            assert(infix_tokens(e) == gl + seq![op] + gr);
            lemma_shunt_from_add(st, gl + seq![op], gr);
            lemma_shunt_from_add(st, gl, seq![op]);
            // The left operand.
            let st1 = shunt_from(st, gl);
            if needs_parens_left(op, l) {
                let open = ShuntState { out: st.out, ops: st.ops.push(TokenView::LParen) };
                assert(gl == seq![TokenView::LParen] + infix_tokens(l) + seq![TokenView::RParen]);
                lemma_shunt_from_add(st, seq![TokenView::LParen] + infix_tokens(l), seq![TokenView::RParen]);
                lemma_shunt_from_add(st, seq![TokenView::LParen], infix_tokens(l));
                lemma_shunt_from_single(st, TokenView::LParen);
                assert(shunt_from(st, seq![TokenView::LParen]) == open);
                lemma_shunt_tree(l, open);
                let inner = shunt_from(open, infix_tokens(l));
                lemma_shunt_from_single(inner, TokenView::RParen);
                assert(shunt_from(inner, seq![TokenView::RParen]) == close_group(inner));
                lemma_close_group_pops(inner, st.ops, pending(l));
                assert(st1 == (ShuntState { out: st.out + done(l) + pending(l).reverse(), ops: st.ops }));
                assert(st.out + done(l) + pending(l).reverse() =~= st.out + postorder(l));
            } else {
                // `l` binds at least as strongly as `e`, so the stack allows it.
                lemma_shunt_tree(l, st);
            }
            // The operator: it pops what the left operand left pending, and
            // stops at what was there before.
            let st2 = shunt_from(st1, seq![op]);
            lemma_shunt_from_single(st1, op);
            assert(st2 == push_operator(st1, op));
            if needs_parens_left(op, l) {
                assert(st.ops + Seq::<TokenView>::empty() =~= st.ops);
                lemma_push_operator_pops(st1, st.ops, Seq::<TokenView>::empty(), op);
                assert(st1.out + Seq::<TokenView>::empty().reverse() =~= st.out + postorder(l));
            } else {
                assert forall|i: int| 0 <= i < pending(l).len() implies pops_before(
                    op,
                    #[trigger] pending(l)[i],
                ) by {}
                lemma_push_operator_pops(st1, st.ops, pending(l), op);
                assert(st.out + done(l) + pending(l).reverse() =~= st.out + postorder(l));
            }
            assert(st2 == (ShuntState { out: st.out + postorder(l), ops: st.ops.push(op) }));
            assert(shunt_from(st, gl + seq![op]) == st2);
            assert(shunt_from(st, infix_tokens(e)) == shunt_from(st2, gr));
            // The right operand.
            if needs_parens_right(op, r) {
                let open = ShuntState {
                    out: st2.out,
                    ops: st2.ops.push(TokenView::LParen),
                };
                assert(gr == seq![TokenView::LParen] + infix_tokens(r) + seq![TokenView::RParen]);
                lemma_shunt_from_add(st2, seq![TokenView::LParen] + infix_tokens(r), seq![TokenView::RParen]);
                lemma_shunt_from_add(st2, seq![TokenView::LParen], infix_tokens(r));
                lemma_shunt_from_single(st2, TokenView::LParen);
                assert(shunt_from(st2, seq![TokenView::LParen]) == open);
                lemma_shunt_tree(r, open);
                let inner = shunt_from(open, infix_tokens(r));
                lemma_shunt_from_single(inner, TokenView::RParen);
                assert(shunt_from(inner, seq![TokenView::RParen]) == close_group(inner));
                lemma_close_group_pops(inner, st2.ops, pending(r));
                assert(st2.out + done(r) + pending(r).reverse() =~= st.out + done(e));
                assert(st2.ops =~= st.ops + pending(e));
                assert(shunt_from(st2, gr) == (ShuntState { out: st.out + done(e), ops: st.ops + pending(e) }));
            } else {
                lemma_shunt_tree(r, st2);
                assert(st2.out + done(r) =~= st.out + done(e));
                assert(st2.ops + pending(r) =~= st.ops + pending(e));
                assert(shunt_from(st2, gr) == (ShuntState { out: st.out + done(e), ops: st.ops + pending(e) }));
            }
        },
        _ => {
            lemma_shunt_from_single(st, leaf_token(e));
            assert(infix_tokens(e) == seq![leaf_token(e)]);
            assert(st.out + done(e) =~= st.out.push(leaf_token(e)));
            assert(pending(e) =~= Seq::<TokenView>::empty());
            assert(st.ops + pending(e) =~= st.ops);
        },
    }
}

/// The stack machine run from a given stack.
pub open spec fn rpn_from(start: Seq<ExprView>, toks: Seq<TokenView>) -> Option<Seq<ExprView>>
    decreases toks.len(),
{
    if toks.len() == 0 {
        Some(start)
    } else {
        match rpn_from(start, toks.drop_last()) {
            None => None,
            Some(st) => {
                let t = toks.last();
                if t.is_val() {
                    Some(st.push(leaf_of(t)))
                } else if t.is_op() {
                    if st.len() >= 2 {
                        Some(
                            st.drop_last().drop_last().push(
                                ExprView::Binary {
                                    op: t,
                                    left: Box::new(st[st.len() - 2]),
                                    right: Box::new(st[st.len() - 1]),
                                },
                            ),
                        )
                    } else {
                        None
                    }
                } else {
                    Some(st)
                }
            },
        }
    }
}

pub proof fn lemma_rpn_run_is_rpn_from(toks: Seq<TokenView>)
    ensures
        rpn_run(toks) == rpn_from(Seq::<ExprView>::empty(), toks),
    decreases toks.len(),
{
    if toks.len() > 0 {
        lemma_rpn_run_is_rpn_from(toks.drop_last());
    }
}

pub proof fn lemma_rpn_from_add(start: Seq<ExprView>, a: Seq<TokenView>, b: Seq<TokenView>)
    requires
        rpn_from(start, a) is Some,
    ensures
        rpn_from(start, a + b) == rpn_from(rpn_from(start, a)->0, b),
    decreases b.len(),
{
    if b.len() == 0 {
        assert(a + b =~= a);
    } else {
        assert((a + b).drop_last() =~= a + b.drop_last());
        assert((a + b).last() == b.last());
        lemma_rpn_from_add(start, a, b.drop_last());
    }
}

/// Reading a tree's postfix order pushes exactly that tree.
pub proof fn lemma_rpn_postorder(e: ExprView, start: Seq<ExprView>)
    requires
        well_formed(e),
    ensures
        rpn_from(start, postorder(e)) == Some(start.push(e)),
    decreases e,
{
    match e {
        ExprView::Binary { op, left, right } => {
            let l = *left;
            let r = *right;
            lemma_rpn_postorder(l, start);
            lemma_rpn_postorder(r, start.push(l));
            lemma_rpn_from_add(start, postorder(l), postorder(r));
            lemma_rpn_from_add(start, postorder(l) + postorder(r), seq![op]);
            let st = start.push(l).push(r);
            reveal_with_fuel(rpn_from, 2);
            assert(seq![op].drop_last() =~= Seq::<TokenView>::empty());
            assert(st.drop_last().drop_last() =~= start);
            assert(st[st.len() - 2] == l);
            assert(st[st.len() - 1] == r);
            assert(rpn_from(st, seq![op]) == Some(start.push(e)));
            assert(rpn_from(start, postorder(l) + postorder(r)) == Some(st));
            assert(postorder(e) == postorder(l) + postorder(r) + seq![op]);
            assert(rpn_from(start, postorder(e)) == rpn_from(st, seq![op]));
        },
        _ => {
            reveal_with_fuel(rpn_from, 2);
            assert(postorder(e).drop_last() =~= Seq::<TokenView>::empty());
            assert(leaf_of(leaf_token(e)) == e);
        },
    }
}

/// An expression written with the usual precedence and associativity rules
/// converts to its postfix order.
pub proof fn law_postfix_of_written_expression(e: ExprView)
    requires
        well_formed(e),
    ensures
        postfix_of(infix_tokens(e)) == postorder(e),
{
    let empty = ShuntState { out: Seq::<TokenView>::empty(), ops: Seq::<TokenView>::empty() };
    lemma_shunt_is_shunt_from(infix_tokens(e));
    lemma_shunt_tree(e, empty);
    lemma_pending(e);
    assert(empty.out + done(e) =~= done(e));
    assert(empty.ops + pending(e) =~= pending(e));
}

/// Reading an expression written with the usual precedence and
/// associativity rules gives back the expression's tree.
pub proof fn law_written_expression_reads_back(e: ExprView)
    requires
        well_formed(e),
    ensures
        rpn_result(postfix_of(infix_tokens(e))) == Some(e),
{
    law_postfix_of_written_expression(e);
    lemma_rpn_run_is_rpn_from(postorder(e));
    lemma_rpn_postorder(e, Seq::<ExprView>::empty());
    assert(Seq::<ExprView>::empty().push(e)[0] == e);
}

/// The character that writes an operator.
pub open spec fn op_char(op: TokenView) -> char {
    match op {
        TokenView::Plus => '+',
        TokenView::Minus => '-',
        TokenView::Multiply => '*',
        TokenView::Divide => '/',
        _ => '^',
    }
}

/// Characters, in parentheses when asked.
pub open spec fn grouped_text(cs: Seq<char>, parens: bool) -> Seq<char> {
    if parens {
        seq!['('] + cs + seq![')']
    } else {
        cs
    }
}

/// An expression tree written as text, with parentheses only where
/// precedence and associativity require them; leaves are written as their
/// text.
pub open spec fn render(e: ExprView) -> Seq<char>
    decreases e,
{
    match e {
        ExprView::Binary { op, left, right } => grouped_text(
            render(*left),
            needs_parens_left(op, *left),
        ) + seq![op_char(op)] + grouped_text(render(*right), needs_parens_right(op, *right)),
        ExprView::Value(s) => s,
        ExprView::Variable(s) => s,
    }
}

/// Text that reads as one operand: not empty, free of operator and
/// parenthesis symbols.
pub open spec fn is_atom(s: Seq<char>) -> bool {
    s.len() > 0 && forall|i: int| 0 <= i < s.len() ==> !is_symbol_char(#[trigger] s[i])
}

/// A tree whose inner nodes apply operators and whose leaves read back as
/// themselves: a value is written as text that parses as an `f64`, a
/// variable as text that does not.
pub open spec fn readable(e: ExprView) -> bool
    decreases e,
{
    match e {
        ExprView::Binary { op, left, right } => op.is_op() && readable(*left) && readable(*right),
        ExprView::Value(s) => is_atom(s) && is_float_literal(s),
        ExprView::Variable(s) => is_atom(s) && !is_float_literal(s),
    }
}

pub proof fn lemma_readable_well_formed(e: ExprView)
    requires
        readable(e),
    ensures
        well_formed(e),
    decreases e,
{
    match e {
        ExprView::Binary { op, left, right } => {
            lemma_readable_well_formed(*left);
            lemma_readable_well_formed(*right);
        },
        _ => {},
    }
}

/// A symbol character is a token of its own.
pub proof fn lemma_lex_symbol(c: char, rest: Seq<char>)
    requires
        is_symbol_char(c),
    ensures
        lex_spec(seq![c] + rest) == seq![symbol_token(c)] + lex_spec(rest),
{
    let s = seq![c] + rest;
    assert(s[0] == c);
    assert(s.drop_first() =~= rest);
}

/// An operand followed by a symbol (or nothing) is one token.
pub proof fn lemma_lex_atom(w: Seq<char>, rest: Seq<char>)
    requires
        is_atom(w),
        rest.len() == 0 || is_symbol_char(rest[0]),
    ensures
        lex_spec(w + rest) == seq![token_of(w)] + lex_spec(rest),
{
    let s = w + rest;
    assert forall|k: int| 0 <= k < w.len() implies !is_symbol_char(#[trigger] s[k]) by {
        assert(s[k] == w[k]);
    }
    if rest.len() > 0 {
        assert(s[w.len() as int] == rest[0]);
    }
    lemma_run_len_exact(s, w.len() as int);
    assert(s[0] == w[0]);
    assert(s.take(w.len() as int) =~= w);
    assert(s.skip(w.len() as int) =~= rest);
}

/// Text that may follow an operand: nothing, or a symbol.
pub open spec fn symbol_or_end(rest: Seq<char>) -> bool {
    rest.len() == 0 || is_symbol_char(rest[0])
}

/// Text that lexes to `toks` whatever symbol follows it still does so once
/// put in parentheses.
pub proof fn lemma_lex_grouped(cs: Seq<char>, toks: Seq<TokenView>, parens: bool, rest: Seq<char>)
    requires
        symbol_or_end(rest),
        forall|r2: Seq<char>|
            symbol_or_end(r2) ==> #[trigger] lex_spec(cs + r2) == toks + lex_spec(r2),
    ensures
        lex_spec(grouped_text(cs, parens) + rest) == grouped(toks, parens) + lex_spec(rest),
{
    if parens {
        let x = seq![')'] + rest;
        assert(symbol_or_end(x));
        assert(lex_spec(cs + x) == toks + lex_spec(x));
        lemma_lex_symbol(')', rest);
        lemma_lex_symbol('(', cs + x);
        assert(grouped_text(cs, parens) + rest =~= seq!['('] + (cs + x));
        assert(seq![symbol_token('(')] + (toks + (seq![symbol_token(')')] + lex_spec(rest)))
            =~= grouped(toks, parens) + lex_spec(rest));
    } else {
        assert(lex_spec(cs + rest) == toks + lex_spec(rest));
    }
}

/// Written text lexes to the written tokens, whatever symbol follows.
#[verifier::rlimit(30)]
pub proof fn lemma_lex_render(e: ExprView, rest: Seq<char>)
    requires
        readable(e),
        symbol_or_end(rest),
    ensures
        lex_spec(render(e) + rest) == infix_tokens(e) + lex_spec(rest),
    decreases e,
{
    match e {
        ExprView::Binary { op, left, right } => {
            let l = *left;
            let r = *right;
            let pl = needs_parens_left(op, l);
            let pr = needs_parens_right(op, r);
            let c = op_char(op);
            assert(is_symbol_char(c) && symbol_token(c) == op);
            assert forall|r2: Seq<char>| symbol_or_end(r2) implies #[trigger] lex_spec(render(r) + r2)
                == infix_tokens(r) + lex_spec(r2) by {
                lemma_lex_render(r, r2);
            }
            assert forall|r2: Seq<char>| symbol_or_end(r2) implies #[trigger] lex_spec(render(l) + r2)
                == infix_tokens(l) + lex_spec(r2) by {
                lemma_lex_render(l, r2);
            }
            let gr = grouped_text(render(r), pr);
            lemma_lex_grouped(render(r), infix_tokens(r), pr, rest);
            let after_op = seq![c] + (gr + rest);
            lemma_lex_symbol(c, gr + rest);
            assert(symbol_or_end(after_op));
            let gl = grouped_text(render(l), pl);
            lemma_lex_grouped(render(l), infix_tokens(l), pl, after_op);
            assert(render(e) + rest =~= gl + after_op);
            assert(infix_tokens(e) + lex_spec(rest) =~= grouped(infix_tokens(l), pl) + (seq![op]
                + (grouped(infix_tokens(r), pr) + lex_spec(rest))));
        },
        ExprView::Value(s) => {
            lemma_lex_atom(s, rest);
        },
        ExprView::Variable(s) => {
            lemma_lex_atom(s, rest);
        },
    }
}

/// Reading the text of an expression written with the usual precedence and
/// associativity rules gives back the expression's tree.
pub proof fn law_written_text_reads_back(e: ExprView)
    requires
        readable(e),
    ensures
        lex_spec(render(e)) == infix_tokens(e),
        rpn_result(postfix_of(lex_spec(render(e)))) == Some(e),
{
    lemma_lex_render(e, Seq::<char>::empty());
    assert(render(e) + Seq::<char>::empty() =~= render(e));
    assert(lex_spec(Seq::<char>::empty()) =~= Seq::<TokenView>::empty());
    assert(infix_tokens(e) + Seq::<TokenView>::empty() =~= infix_tokens(e));
    lemma_readable_well_formed(e);
    law_written_expression_reads_back(e);
}

/// The names of the variable leaves of a tree, from left to right.
pub open spec fn tree_variables(e: ExprView) -> Seq<Seq<char>>
    decreases e,
{
    match e {
        ExprView::Binary { op, left, right } => tree_variables(*left) + tree_variables(*right),
        ExprView::Variable(s) => seq![s],
        ExprView::Value(_) => Seq::<Seq<char>>::empty(),
    }
}

pub proof fn lemma_variables_of_add(a: Seq<TokenView>, b: Seq<TokenView>)
    ensures
        variables_of(a + b) == variables_of(a) + variables_of(b),
    decreases b.len(),
{
    if b.len() == 0 {
        assert(a + b =~= a);
        assert(variables_of(a) + variables_of(b) =~= variables_of(a));
    } else {
        assert((a + b).drop_last() =~= a + b.drop_last());
        assert((a + b).last() == b.last());
        lemma_variables_of_add(a, b.drop_last());
        match b.last() {
            TokenView::Variable(name) => {
                assert(variables_of(a) + variables_of(b.drop_last()).push(name) =~= (variables_of(a)
                    + variables_of(b.drop_last())).push(name));
            },
            _ => {},
        }
    }
}

pub proof fn lemma_variables_of_grouped(toks: Seq<TokenView>, parens: bool)
    ensures
        variables_of(grouped(toks, parens)) == variables_of(toks),
{
    if parens {
        reveal_with_fuel(variables_of, 2);
        lemma_variables_of_add(seq![TokenView::LParen], toks);
        lemma_variables_of_add(seq![TokenView::LParen] + toks, seq![TokenView::RParen]);
        assert(seq![TokenView::LParen].drop_last() =~= Seq::<TokenView>::empty());
        assert(seq![TokenView::RParen].drop_last() =~= Seq::<TokenView>::empty());
        assert(Seq::<Seq<char>>::empty() + variables_of(toks) =~= variables_of(toks));
        assert(variables_of(toks) + Seq::<Seq<char>>::empty() =~= variables_of(toks));
    }
}

/// The variables in a written expression's tokens are its tree's variable
/// leaves, from left to right.
pub proof fn lemma_infix_variables(e: ExprView)
    requires
        well_formed(e),
    ensures
        variables_of(infix_tokens(e)) == tree_variables(e),
    decreases e,
{
    reveal_with_fuel(variables_of, 2);
    match e {
        ExprView::Binary { op, left, right } => {
            lemma_infix_variables(*left);
            lemma_infix_variables(*right);
            let gl = grouped(infix_tokens(*left), needs_parens_left(op, *left));
            let gr = grouped(infix_tokens(*right), needs_parens_right(op, *right));
            lemma_variables_of_grouped(infix_tokens(*left), needs_parens_left(op, *left));
            lemma_variables_of_grouped(infix_tokens(*right), needs_parens_right(op, *right));
            lemma_variables_of_add(gl + seq![op], gr);
            lemma_variables_of_add(gl, seq![op]);
            assert(seq![op].drop_last() =~= Seq::<TokenView>::empty());
            assert(variables_of(seq![op]) =~= Seq::<Seq<char>>::empty());
            assert(variables_of(gl) + Seq::<Seq<char>>::empty() =~= variables_of(gl));
            assert(infix_tokens(e) == gl + seq![op] + gr);
            assert(variables_of(infix_tokens(e)) =~= tree_variables(*left) + tree_variables(*right));
        },
        _ => {
            assert(infix_tokens(e).drop_last() =~= Seq::<TokenView>::empty());
            match e {
                ExprView::Variable(s) => {
                    assert(Seq::<Seq<char>>::empty().push(s) =~= seq![s]);
                },
                _ => {},
            }
        },
    }
}

/// The variables that the parser lists for an expression's text are the
/// tree's variables, in the order in which they are written.
pub proof fn law_written_text_variables(e: ExprView)
    requires
        readable(e),
    ensures
        variables_of(lex_spec(render(e))) == tree_variables(e),
{
    law_written_text_reads_back(e);
    lemma_readable_well_formed(e);
    lemma_infix_variables(e);
}

} // verus!
