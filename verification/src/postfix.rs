//! Conversion of an infix token sequence to postfix order (shunting-yard).
use vstd::prelude::*;

use crate::token::{token_views, Token, TokenView};

verus! {

/// The state of the conversion: the output so far and the stack of pending
/// operators and open parentheses (top at the end).
pub struct ShuntState {
    pub out: Seq<TokenView>,
    pub ops: Seq<TokenView>,
}

/// Whether operator `t` arriving makes the operator `top` leave the stack
/// first: `top` binds at least as strongly (strictly more strongly when `t`
/// is right-associative).
pub open spec fn pops_before(t: TokenView, top: TokenView) -> bool {
    (t.assoc_left() && t.prec() <= top.prec()) || (t.assoc_right() && t.prec() < top.prec())
}

/// An operator arrives: pending operators that bind at least as strongly go
/// to the output, then the operator is pushed.
pub open spec fn push_operator(st: ShuntState, t: TokenView) -> ShuntState
    decreases st.ops.len(),
{
    if st.ops.len() > 0 && pops_before(t, st.ops.last()) {
        push_operator(ShuntState { out: st.out.push(st.ops.last()), ops: st.ops.drop_last() }, t)
    } else {
        ShuntState { out: st.out, ops: st.ops.push(t) }
    }
}

/// A closing parenthesis arrives: pending tokens go to the output down to
/// the nearest open parenthesis, which is dropped (if there is none, the
/// whole stack goes to the output).
pub open spec fn close_group(st: ShuntState) -> ShuntState
    decreases st.ops.len(),
{
    if st.ops.len() > 0 && !st.ops.last().is_lparen() {
        close_group(ShuntState { out: st.out.push(st.ops.last()), ops: st.ops.drop_last() })
    } else if st.ops.len() > 0 {
        ShuntState { out: st.out, ops: st.ops.drop_last() }
    } else {
        st
    }
}

/// One token of input.
pub open spec fn shunt_step(st: ShuntState, t: TokenView) -> ShuntState {
    if t.is_val() {
        ShuntState { out: st.out.push(t), ops: st.ops }
    } else if t.is_op() {
        push_operator(st, t)
    } else if t.is_lparen() {
        ShuntState { out: st.out, ops: st.ops.push(t) }
    } else if t.is_rparen() {
        close_group(st)
    } else {
        st
    }
}

/// The state after reading all of `infix`.
pub open spec fn shunt(infix: Seq<TokenView>) -> ShuntState
    decreases infix.len(),
{
    if infix.len() == 0 {
        ShuntState { out: Seq::<TokenView>::empty(), ops: Seq::<TokenView>::empty() }
    } else {
        shunt_step(shunt(infix.drop_last()), infix.last())
    }
}

/// The postfix form of `infix`: the output, then the pending stack from its
/// top down.
pub open spec fn postfix_of(infix: Seq<TokenView>) -> Seq<TokenView> {
    let st = shunt(infix);
    st.out + st.ops.reverse()
}

/// Converts infix tokens to postfix order.
pub fn build_postfix(infix: Vec<Token>) -> (postfix: Vec<Token>)
    ensures
        token_views(postfix@) == postfix_of(token_views(infix@)),
{
    let mut op_stack: Vec<Token> = Vec::new();
    let mut out_queue: Vec<Token> = Vec::new();
    let n = infix.len();
    let mut i: usize = 0;
    assert(token_views(infix@).take(0) =~= Seq::<TokenView>::empty());
    assert(token_views(op_stack@) =~= Seq::<TokenView>::empty());
    assert(token_views(out_queue@) =~= Seq::<TokenView>::empty());
    while i < n
        invariant
            n == infix@.len(),
            i <= n,
            shunt(token_views(infix@).take(i as int)) == (ShuntState {
                out: token_views(out_queue@),
                ops: token_views(op_stack@),
            }),
        decreases n - i,
    {
        let token = infix[i].duplicate();
        let ghost tv = token@;
        let ghost pre = ShuntState { out: token_views(out_queue@), ops: token_views(op_stack@) };
        assert(token_views(infix@).take(i + 1).drop_last() =~= token_views(infix@).take(i as int));
        assert(token_views(infix@).take(i + 1).last() == tv);
        let ghost target = shunt_step(pre, tv);
        if token.is_val() {
            let ghost before = out_queue@;
            out_queue.push(token);
            assert(token_views(out_queue@) =~= token_views(before).push(tv));
        } else if token.is_op() {
            while op_stack.len() > 0 && ((token.assoc_left() && token.prec() <= op_stack[op_stack.len()
                - 1].prec()) || (token.assoc_right() && token.prec() < op_stack[op_stack.len()
                - 1].prec()))
                invariant
                    token@ == tv,
                    tv.is_op(),
                    target == push_operator(pre, tv),
                    push_operator(pre, tv) == push_operator(
                        ShuntState { out: token_views(out_queue@), ops: token_views(op_stack@) },
                        tv,
                    ),
                decreases op_stack@.len(),
            {
                let ghost before_ops = op_stack@;
                let ghost before_out = out_queue@;
                let val = op_stack.pop().unwrap();
                out_queue.push(val);
                assert(token_views(out_queue@) =~= token_views(before_out).push(
                    token_views(before_ops).last(),
                ));
                assert(token_views(op_stack@) =~= token_views(before_ops).drop_last());
            }
            let ghost before = op_stack@;
            op_stack.push(token);
            assert(token_views(op_stack@) =~= token_views(before).push(tv));
        } else if token.is_lparen() {
            let ghost before = op_stack@;
            op_stack.push(token);
            assert(token_views(op_stack@) =~= token_views(before).push(tv));
        } else if token.is_rparen() {
            while op_stack.len() > 0 && !op_stack[op_stack.len() - 1].is_lparen()
                invariant
                    tv.is_rparen(),
                    target == close_group(pre),
                    close_group(pre) == close_group(
                        ShuntState { out: token_views(out_queue@), ops: token_views(op_stack@) },
                    ),
                decreases op_stack@.len(),
            {
                let ghost before_ops = op_stack@;
                let ghost before_out = out_queue@;
                let val = op_stack.pop().unwrap();
                out_queue.push(val);
                assert(token_views(out_queue@) =~= token_views(before_out).push(
                    token_views(before_ops).last(),
                ));
                assert(token_views(op_stack@) =~= token_views(before_ops).drop_last());
            }
            let ghost before_ops = op_stack@;
            op_stack.pop();
            proof {
                if before_ops.len() > 0 {
                    assert(token_views(op_stack@) =~= token_views(before_ops).drop_last());
                }
            }
        }
        i = i + 1;
    }
    assert(token_views(infix@).take(n as int) =~= token_views(infix@));
    let ghost st = shunt(token_views(infix@));
    assert(st.ops.reverse().take(0) =~= Seq::<TokenView>::empty());
    while op_stack.len() > 0
        invariant
            st.out + st.ops.reverse() == postfix_of(token_views(infix@)),
            token_views(op_stack@) == st.ops.take(op_stack@.len() as int),
            op_stack@.len() <= st.ops.len(),
            token_views(out_queue@) == st.out + st.ops.reverse().take(
                st.ops.len() - op_stack@.len(),
            ),
        decreases op_stack@.len(),
    {
        let ghost k = op_stack@.len();
        let ghost before_ops = op_stack@;
        let ghost before_out = out_queue@;
        let val = op_stack.pop().unwrap();
        out_queue.push(val);
        assert(token_views(op_stack@) =~= st.ops.take(k - 1));
        assert(st.ops.reverse()[st.ops.len() - k] == st.ops[k - 1]);
        assert(token_views(before_ops)[k - 1] == st.ops[k - 1]);
        assert(token_views(out_queue@) =~= token_views(before_out).push(st.ops[k - 1]));
        assert(st.ops.reverse().take(st.ops.len() - k + 1) =~= st.ops.reverse().take(
            st.ops.len() - k,
        ).push(st.ops[k - 1]));
    }
    assert(st.ops.reverse().take(st.ops.len() as int) =~= st.ops.reverse());
    out_queue
}


/// How often `k` occurs in `ts`.
pub open spec fn occurrences(ts: Seq<TokenView>, k: TokenView) -> nat
    decreases ts.len(),
{
    if ts.len() == 0 {
        0
    } else {
        occurrences(ts.drop_last(), k) + if ts.last() == k {
            1nat
        } else {
            0nat
        }
    }
}

/// The operands (values and variables) of `ts`, in order.
pub open spec fn operands(ts: Seq<TokenView>) -> Seq<TokenView>
    decreases ts.len(),
{
    if ts.len() == 0 {
        Seq::<TokenView>::empty()
    } else if ts.last().is_val() {
        operands(ts.drop_last()).push(ts.last())
    } else {
        operands(ts.drop_last())
    }
}

pub open spec fn no_operands(ts: Seq<TokenView>) -> bool {
    forall|i: int| 0 <= i < ts.len() ==> !(#[trigger] ts[i]).is_val()
}

/// Open parentheses minus closing ones.
pub open spec fn paren_depth(ts: Seq<TokenView>) -> int {
    occurrences(ts, TokenView::LParen) - occurrences(ts, TokenView::RParen)
}

/// No prefix closes more parentheses than it opens.
pub open spec fn parens_never_unmatched(ts: Seq<TokenView>) -> bool {
    forall|i: int| 0 <= i <= ts.len() ==> paren_depth(#[trigger] ts.take(i)) >= 0
}

/// Every parenthesis is matched.
pub open spec fn parens_balanced(ts: Seq<TokenView>) -> bool {
    parens_never_unmatched(ts) && paren_depth(ts) == 0
}

pub proof fn lemma_occurrences_add(a: Seq<TokenView>, b: Seq<TokenView>, k: TokenView)
    ensures
        occurrences(a + b, k) == occurrences(a, k) + occurrences(b, k),
    decreases b.len(),
{
    if b.len() > 0 {
        assert((a + b).drop_last() =~= a + b.drop_last());
        lemma_occurrences_add(a, b.drop_last(), k);
    } else {
        assert(a + b =~= a);
    }
}

pub proof fn lemma_occurrences_reverse(s: Seq<TokenView>, k: TokenView)
    ensures
        occurrences(s.reverse(), k) == occurrences(s, k),
    decreases s.len(),
{
    if s.len() > 0 {
        let r = s.reverse();
        assert(r =~= seq![s.last()] + s.drop_last().reverse());
        lemma_occurrences_reverse(s.drop_last(), k);
        lemma_occurrences_add(seq![s.last()], s.drop_last().reverse(), k);
        assert(seq![s.last()].drop_last() =~= Seq::<TokenView>::empty());
        assert(occurrences(seq![s.last()], k) == occurrences(Seq::<TokenView>::empty(), k) + if s.last() == k {
            1nat
        } else {
            0nat
        });
    } else {
        assert(s.reverse() =~= s);
    }
}

pub proof fn lemma_operands_add(a: Seq<TokenView>, b: Seq<TokenView>)
    ensures
        operands(a + b) == operands(a) + operands(b),
    decreases b.len(),
{
    if b.len() > 0 {
        assert((a + b).drop_last() =~= a + b.drop_last());
        lemma_operands_add(a, b.drop_last());
        if b.last().is_val() {
            assert(operands(a + b) =~= operands(a) + operands(b));
        }
    } else {
        assert(a + b =~= a);
        assert(operands(b) =~= Seq::<TokenView>::empty());
    }
}

pub proof fn lemma_no_operands(s: Seq<TokenView>)
    requires
        no_operands(s),
    ensures
        operands(s) == Seq::<TokenView>::empty(),
    decreases s.len(),
{
    if s.len() > 0 {
        lemma_no_operands(s.drop_last());
    }
}

/// An operator arriving moves only operators from the stack to the output
/// and then sits on the stack.
pub proof fn lemma_push_operator(st: ShuntState, t: TokenView)
    requires
        t.is_op(),
    ensures
        ({
            let r = push_operator(st, t);
            &&& forall|k: TokenView|
                occurrences(#[trigger] r.out, k) + occurrences(r.ops, k) == occurrences(st.out, k)
                    + occurrences(st.ops, k) + if t == k {
                    1nat
                } else {
                    0nat
                }
            &&& forall|k: TokenView|
                !k.is_op() ==> occurrences(#[trigger] r.out, k) == occurrences(st.out, k)
            &&& operands(r.out) == operands(st.out)
            &&& no_operands(st.ops) ==> no_operands(r.ops)
        }),
    decreases st.ops.len(),
{
    if st.ops.len() > 0 && pops_before(t, st.ops.last()) {
        let top = st.ops.last();
        assert(top.is_op());
        let next = ShuntState { out: st.out.push(top), ops: st.ops.drop_last() };
        lemma_push_operator(next, t);
        assert(next.out.drop_last() =~= st.out);
        if no_operands(st.ops) {
            assert forall|i: int| 0 <= i < next.ops.len() implies !(#[trigger] next.ops[i]).is_val() by {
                assert(next.ops[i] == st.ops[i]);
            }
        }
    } else {
        let r = push_operator(st, t);
        assert(r.ops.drop_last() =~= st.ops);
        if no_operands(st.ops) {
            assert forall|i: int| 0 <= i < r.ops.len() implies !(#[trigger] r.ops[i]).is_val() by {
                if i < st.ops.len() {
                    assert(r.ops[i] == st.ops[i]);
                }
            }
        }
    }
}

/// A closing parenthesis moves the stack down to the nearest open
/// parenthesis to the output, and drops that parenthesis.
pub proof fn lemma_close_group(st: ShuntState)
    ensures
        ({
            let r = close_group(st);
            &&& forall|k: TokenView|
                k != TokenView::LParen ==> occurrences(#[trigger] r.out, k) + occurrences(r.ops, k)
                    == occurrences(st.out, k) + occurrences(st.ops, k)
            &&& occurrences(r.out, TokenView::LParen) == occurrences(st.out, TokenView::LParen)
            &&& occurrences(st.ops, TokenView::LParen) > 0 ==> occurrences(r.ops, TokenView::LParen)
                + 1 == occurrences(st.ops, TokenView::LParen)
            &&& no_operands(st.ops) ==> operands(r.out) == operands(st.out) && no_operands(r.ops)
        }),
    decreases st.ops.len(),
{
    if st.ops.len() > 0 && !st.ops.last().is_lparen() {
        let top = st.ops.last();
        let next = ShuntState { out: st.out.push(top), ops: st.ops.drop_last() };
        lemma_close_group(next);
        assert(next.out.drop_last() =~= st.out);
        if no_operands(st.ops) {
            assert(!st.ops[st.ops.len() - 1].is_val());
            assert forall|i: int| 0 <= i < next.ops.len() implies !(#[trigger] next.ops[i]).is_val() by {
                assert(next.ops[i] == st.ops[i]);
            }
        }
    } else if st.ops.len() > 0 {
        let r = close_group(st);
        if no_operands(st.ops) {
            assert forall|i: int| 0 <= i < r.ops.len() implies !(#[trigger] r.ops[i]).is_val() by {
                assert(r.ops[i] == st.ops[i]);
            }
        }
    }
}

/// What holds of the conversion state `st` after reading `x`.
pub open spec fn shunt_invariant(x: Seq<TokenView>, st: ShuntState) -> bool {
    &&& operands(st.out) == operands(x)
    &&& no_operands(st.ops)
    &&& forall|k: TokenView|
        k.is_op() ==> occurrences(#[trigger] st.out, k) + occurrences(st.ops, k) == occurrences(x, k)
    &&& occurrences(st.out, TokenView::RParen) == 0
    &&& occurrences(st.ops, TokenView::RParen) == 0
    &&& parens_never_unmatched(x) ==> occurrences(st.out, TokenView::LParen) == 0 && occurrences(
        st.ops,
        TokenView::LParen,
    ) == paren_depth(x)
}

/// The invariant holds after reading any prefix.
pub proof fn lemma_shunt_invariants(x: Seq<TokenView>)
    ensures
        shunt_invariant(x, shunt(x)),
    decreases x.len(),
{
    if x.len() > 0 {
        let y = x.drop_last();
        let t = x.last();
        lemma_shunt_invariants(y);
        let pre = shunt(y);
        let st = shunt(x);
        assert forall|k: TokenView| #[trigger] occurrences(x, k) == occurrences(y, k) + if t == k {
            1nat
        } else {
            0nat
        } by {}
        if parens_never_unmatched(x) {
            assert forall|i: int| 0 <= i <= y.len() implies paren_depth(#[trigger] y.take(i)) >= 0 by {
                assert(y.take(i) =~= x.take(i));
            }
            assert(x.take(x.len() as int) =~= x);
        }
        if t.is_val() {
            assert(st.out.drop_last() =~= pre.out);
            assert forall|k: TokenView| #[trigger] occurrences(st.out, k) == occurrences(pre.out, k)
                + if t == k {
                1nat
            } else {
                0nat
            } by {}
            assert(shunt_invariant(x, st));
        } else if t.is_op() {
            lemma_push_operator(pre, t);
            // Parentheses are not operators: the operator moves none of them.
            assert(!TokenView::LParen.is_op());
            assert(occurrences(st.out, TokenView::LParen) == occurrences(pre.out, TokenView::LParen));
            assert(shunt_invariant(x, st));
        } else if t.is_lparen() {
            assert(st.ops.drop_last() =~= pre.ops);
            assert forall|i: int| 0 <= i < st.ops.len() implies !(#[trigger] st.ops[i]).is_val() by {
                if i < pre.ops.len() {
                    assert(st.ops[i] == pre.ops[i]);
                }
            }
            assert forall|k: TokenView| #[trigger] occurrences(st.ops, k) == occurrences(pre.ops, k)
                + if t == k {
                1nat
            } else {
                0nat
            } by {}
            assert(shunt_invariant(x, st));
        } else if t.is_rparen() {
            lemma_close_group(pre);
            assert(shunt_invariant(x, st));
        } else {
            assert(shunt_invariant(x, st));
        }
    } else {
        assert(x.take(0) =~= x);
    }
}

/// The postfix form at the end of the conversion, split into the output
/// and the reversed stack.
proof fn lemma_postfix_parts(infix: Seq<TokenView>, k: TokenView)
    ensures
        ({
            let st = shunt(infix);
            &&& occurrences(postfix_of(infix), k) == occurrences(st.out, k) + occurrences(st.ops, k)
            &&& no_operands(st.ops) ==> operands(postfix_of(infix)) == operands(st.out)
        }),
{
    let st = shunt(infix);
    lemma_occurrences_add(st.out, st.ops.reverse(), k);
    lemma_occurrences_reverse(st.ops, k);
    lemma_operands_add(st.out, st.ops.reverse());
    if no_operands(st.ops) {
        assert forall|i: int| 0 <= i < st.ops.reverse().len() implies !(
        #[trigger] st.ops.reverse()[i]).is_val() by {
            assert(st.ops.reverse()[i] == st.ops[st.ops.len() - 1 - i]);
        }
        lemma_no_operands(st.ops.reverse());
        assert(operands(st.out) + Seq::<TokenView>::empty() =~= operands(st.out));
    }
}

/// The postfix form lists the operands of the expression in the order in
/// which they were written.
pub proof fn law_postfix_keeps_operands(infix: Seq<TokenView>)
    ensures
        operands(postfix_of(infix)) == operands(infix),
{
    lemma_shunt_invariants(infix);
    lemma_postfix_parts(infix, TokenView::Plus);
}

/// The postfix form holds each operator as often as the expression does.
pub proof fn law_postfix_keeps_operators(infix: Seq<TokenView>, k: TokenView)
    requires
        k.is_op(),
    ensures
        occurrences(postfix_of(infix), k) == occurrences(infix, k),
{
    lemma_shunt_invariants(infix);
    lemma_postfix_parts(infix, k);
}

/// The postfix form holds no closing parenthesis.
pub proof fn law_postfix_has_no_closing_parens(infix: Seq<TokenView>)
    ensures
        occurrences(postfix_of(infix), TokenView::RParen) == 0,
{
    lemma_shunt_invariants(infix);
    lemma_postfix_parts(infix, TokenView::RParen);
}

/// When the parentheses of the expression are balanced, its postfix form
/// holds no parenthesis at all.
pub proof fn law_postfix_balanced_has_no_parens(infix: Seq<TokenView>)
    requires
        parens_balanced(infix),
    ensures
        occurrences(postfix_of(infix), TokenView::LParen) == 0,
        occurrences(postfix_of(infix), TokenView::RParen) == 0,
{
    lemma_shunt_invariants(infix);
    lemma_postfix_parts(infix, TokenView::LParen);
    lemma_postfix_parts(infix, TokenView::RParen);
}


/// Reading one more token is one more step.
proof fn lemma_shunt_push(s: Seq<TokenView>, t: TokenView)
    ensures
        shunt(s.push(t)) == shunt_step(shunt(s), t),
{
    assert(s.push(t).drop_last() =~= s);
}

/// `+` or `-`.
pub open spec fn is_additive(t: TokenView) -> bool {
    t is Plus || t is Minus
}

/// `*` or `/`.
pub open spec fn is_multiplicative(t: TokenView) -> bool {
    t is Multiply || t is Divide
}

/// The operators bind in three levels: `+` and `-` together, more loosely
/// than `*` and `/` together, more loosely than `^`.
pub proof fn law_precedence_levels()
    ensures
        TokenView::Minus.prec() == TokenView::Plus.prec(),
        TokenView::Divide.prec() == TokenView::Multiply.prec(),
        TokenView::Plus.prec() < TokenView::Multiply.prec(),
        TokenView::Multiply.prec() < TokenView::Exponent.prec(),
{
}

/// `x op1 y op2 z` where `op2` binds more strongly than `op1`, or both are
/// `^` (which groups to the right): the right operator binds first
/// (`a-b/c` is `a-(b/c)`, `a*b^c` is `a*(b^c)`, `a^b^c` is `a^(b^c)`).
pub proof fn law_multiplicative_binds_tighter_on_right(
    x: TokenView,
    op1: TokenView,
    y: TokenView,
    op2: TokenView,
    z: TokenView,
)
    requires
        x.is_val(),
        y.is_val(),
        z.is_val(),
        is_additive(op1) && is_multiplicative(op2) || (is_additive(op1) || is_multiplicative(op1)
            || op1 is Exponent) && op2 is Exponent,
    ensures
        postfix_of(seq![x, op1, y, op2, z]) == seq![x, y, z, op2, op1],
{
    let e = Seq::<TokenView>::empty();
    let inf = seq![x, op1, y, op2, z];
    let p1 = e.push(x);
    let p2 = p1.push(op1);
    let p3 = p2.push(y);
    let p4 = p3.push(op2);
    assert(inf =~= p4.push(z));
    lemma_shunt_push(e, x);
    lemma_shunt_push(p1, op1);
    lemma_shunt_push(p2, y);
    lemma_shunt_push(p3, op2);
    lemma_shunt_push(p4, z);
    let s0 = ShuntState { out: e, ops: e };
    assert(shunt(e) == s0);
    let s1 = shunt_step(s0, x);
    assert(s1 == ShuntState { out: seq![x], ops: e }) by {
        assert(e.push(x) =~= seq![x]);
    }
    let s2 = shunt_step(s1, op1);
    assert(s2 == ShuntState { out: seq![x], ops: seq![op1] }) by {
        assert(e.push(op1) =~= seq![op1]);
    }
    let s3 = shunt_step(s2, y);
    assert(s3 == ShuntState { out: seq![x, y], ops: seq![op1] }) by {
        assert(seq![x].push(y) =~= seq![x, y]);
    }
    let s4 = shunt_step(s3, op2);
    assert(s4 == ShuntState { out: seq![x, y], ops: seq![op1, op2] }) by {
        assert(seq![op1].last() == op1);
        assert(!pops_before(op2, op1));
        assert(seq![op1].push(op2) =~= seq![op1, op2]);
    }
    let s5 = shunt_step(s4, z);
    assert(s5 == ShuntState { out: seq![x, y, z], ops: seq![op1, op2] }) by {
        assert(seq![x, y].push(z) =~= seq![x, y, z]);
    }
    assert(shunt(inf) == s5);
    assert(seq![x, y, z] + seq![op1, op2].reverse() =~= seq![x, y, z, op2, op1]);
}

/// `x op1 y op2 z` where `op1` binds more strongly than `op2`, or as
/// strongly with both grouping to the left: the left operator binds first
/// (`a/b-c` is `(a/b)-c`, `a-b+c` is `(a-b)+c`, `a^b*c` is `(a^b)*c`).
pub proof fn law_left_operator_binds_first(
    x: TokenView,
    op1: TokenView,
    y: TokenView,
    op2: TokenView,
    z: TokenView,
)
    requires
        x.is_val(),
        y.is_val(),
        z.is_val(),
        is_additive(op2) && (is_additive(op1) || is_multiplicative(op1) || op1 is Exponent)
            || is_multiplicative(op2) && (is_multiplicative(op1) || op1 is Exponent),
    ensures
        postfix_of(seq![x, op1, y, op2, z]) == seq![x, y, op1, z, op2],
{
    let e = Seq::<TokenView>::empty();
    let inf = seq![x, op1, y, op2, z];
    let p1 = e.push(x);
    let p2 = p1.push(op1);
    let p3 = p2.push(y);
    let p4 = p3.push(op2);
    assert(inf =~= p4.push(z));
    lemma_shunt_push(e, x);
    lemma_shunt_push(p1, op1);
    lemma_shunt_push(p2, y);
    lemma_shunt_push(p3, op2);
    lemma_shunt_push(p4, z);
    let s0 = ShuntState { out: e, ops: e };
    assert(shunt(e) == s0);
    let s1 = shunt_step(s0, x);
    assert(s1 == ShuntState { out: seq![x], ops: e }) by {
        assert(e.push(x) =~= seq![x]);
    }
    let s2 = shunt_step(s1, op1);
    assert(s2 == ShuntState { out: seq![x], ops: seq![op1] }) by {
        assert(e.push(op1) =~= seq![op1]);
    }
    let s3 = shunt_step(s2, y);
    assert(s3 == ShuntState { out: seq![x, y], ops: seq![op1] }) by {
        assert(seq![x].push(y) =~= seq![x, y]);
    }
    let s4 = shunt_step(s3, op2);
    assert(s4 == ShuntState { out: seq![x, y, op1], ops: seq![op2] }) by {
        assert(seq![op1].last() == op1);
        assert(pops_before(op2, op1));
        assert(seq![op1].drop_last() =~= e);
        let mid = ShuntState { out: seq![x, y].push(op1), ops: e };
        assert(push_operator(s3, op2) == push_operator(mid, op2));
        assert(push_operator(mid, op2) == ShuntState { out: mid.out, ops: e.push(op2) });
        assert(seq![x, y].push(op1) =~= seq![x, y, op1]);
        assert(e.push(op2) =~= seq![op2]);
    }
    let s5 = shunt_step(s4, z);
    assert(s5 == ShuntState { out: seq![x, y, op1, z], ops: seq![op2] }) by {
        assert(seq![x, y, op1].push(z) =~= seq![x, y, op1, z]);
    }
    assert(shunt(inf) == s5);
    assert(seq![x, y, op1, z] + seq![op2].reverse() =~= seq![x, y, op1, z, op2]);
}

} // verus!
