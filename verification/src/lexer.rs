//! Splitting an expression into tokens.
use vstd::prelude::*;

use crate::parser::Error;
use crate::token::{
    is_symbol, is_symbol_char, symbol_to_token, symbol_token, token_of, token_views, Token,
    TokenView,
};

verus! {

/// The length of the longest prefix of `s` without operator or parenthesis
/// symbols.
pub open spec fn run_len(s: Seq<char>) -> nat
    decreases s.len(),
{
    if s.len() == 0 || is_symbol_char(s[0]) {
        0
    } else {
        1 + run_len(s.drop_first())
    }
}

pub proof fn lemma_run_len_bound(s: Seq<char>)
    ensures
        run_len(s) <= s.len(),
        s.len() > 0 && !is_symbol_char(s[0]) ==> run_len(s) >= 1,
    decreases s.len(),
{
    if s.len() > 0 && !is_symbol_char(s[0]) {
        lemma_run_len_bound(s.drop_first());
    }
}

/// The tokens of an expression: each operator or parenthesis symbol is a
/// token of its own, and each maximal stretch of other characters between
/// them is one token, read by `token_of`.
pub open spec fn lex_spec(s: Seq<char>) -> Seq<TokenView>
    decreases s.len(),
{
    if s.len() == 0 {
        Seq::<TokenView>::empty()
    } else if is_symbol_char(s[0]) {
        seq![symbol_token(s[0])] + lex_spec(s.drop_first())
    } else {
        let n = run_len(s);
        proof {
            lemma_run_len_bound(s);
        }
        seq![token_of(s.take(n as int))] + lex_spec(s.skip(n as int))
    }
}

/// A stretch of `m` non-symbol characters that ends at a symbol or at the
/// end of the text is exactly the first run.
pub proof fn lemma_run_len_exact(s: Seq<char>, m: int)
    requires
        0 <= m <= s.len(),
        forall|k: int| 0 <= k < m ==> !is_symbol_char(#[trigger] s[k]),
        m == s.len() || is_symbol_char(s[m]),
    ensures
        run_len(s) == m,
    decreases m,
{
    if m > 0 {
        let t = s.drop_first();
        assert forall|k: int| 0 <= k < m - 1 implies !is_symbol_char(#[trigger] t[k]) by {
            assert(t[k] == s[k + 1]);
        }
        if m < s.len() {
            assert(t[m - 1] == s[m]);
        }
        lemma_run_len_exact(t, m - 1);
    }
}

/// Splits an expression into tokens; this never fails.
pub fn lex(expression_raw: String) -> (r: Result<Vec<Token>, Error>)
    ensures
        r matches Ok(tokens) && token_views(tokens@) == lex_spec(expression_raw@),
{
    let s = expression_raw.as_str();
    let n = s.unicode_len();
    let mut tokens: Vec<Token> = Vec::new();
    let mut start: usize = 0;
    let mut i: usize = 0;
    assert(s@.skip(0) =~= s@);
    while i < n
        invariant
            n == s@.len(),
            start <= i <= n,
            forall|k: int| start <= k < i ==> !is_symbol_char(#[trigger] s@[k]),
            lex_spec(s@) == token_views(tokens@) + lex_spec(s@.skip(start as int)),
        decreases n - i,
    {
        let c = s.get_char(i);
        if is_symbol(c) {
            let ghost rest = s@.skip(start as int);
            let ghost m = i - start;
            assert(rest[m] == c);
            if i > start {
                proof {
                    assert forall|k: int| 0 <= k < m implies !is_symbol_char(#[trigger] rest[k]) by {
                        assert(rest[k] == s@[start + k]);
                    }
                    lemma_run_len_exact(rest, m);
                    assert(rest.skip(m) =~= s@.skip(i as int));
                    assert(rest.take(m) =~= s@.subrange(start as int, i as int));
                }
                let piece = String::from_str(s.substring_char(start, i));
                let t = Token::new(piece);
                let ghost before = tokens@;
                tokens.push(t);
                assert(token_views(tokens@) =~= token_views(before).push(t@));
                assert(lex_spec(s@) =~= token_views(tokens@) + lex_spec(s@.skip(i as int)));
            }
            let ghost here = s@.skip(i as int);
            assert(here[0] == c);
            assert(here.drop_first() =~= s@.skip(i + 1));
            let t = symbol_to_token(c);
            let ghost before = tokens@;
            tokens.push(t);
            assert(token_views(tokens@) =~= token_views(before).push(t@));
            start = i + 1;
            assert(lex_spec(s@) =~= token_views(tokens@) + lex_spec(s@.skip(start as int)));
        }
        i = i + 1;
    }
    if n > start {
        let ghost rest = s@.skip(start as int);
        let ghost m = n - start;
        proof {
            assert forall|k: int| 0 <= k < m implies !is_symbol_char(#[trigger] rest[k]) by {
                assert(rest[k] == s@[start + k]);
            }
            lemma_run_len_exact(rest, m);
            assert(rest.skip(m) =~= Seq::<char>::empty());
            assert(rest.take(m) =~= s@.subrange(start as int, n as int));
            assert(lex_spec(Seq::<char>::empty()) =~= Seq::<TokenView>::empty());
        }
        let piece = String::from_str(s.substring_char(start, n));
        let t = Token::new(piece);
        let ghost before = tokens@;
        tokens.push(t);
        assert(token_views(tokens@) =~= token_views(before).push(t@));
        assert(lex_spec(s@) =~= token_views(tokens@));
    } else {
        assert(s@.skip(start as int) =~= Seq::<char>::empty());
        assert(lex_spec(s@) =~= token_views(tokens@));
    }
    Ok(tokens)
}

/// The text that a token was read from.
pub open spec fn token_text(t: TokenView) -> Seq<char> {
    match t {
        TokenView::Plus => seq!['+'],
        TokenView::Minus => seq!['-'],
        TokenView::Multiply => seq!['*'],
        TokenView::Divide => seq!['/'],
        TokenView::Exponent => seq!['^'],
        TokenView::LParen => seq!['('],
        TokenView::RParen => seq![')'],
        TokenView::Number => Seq::<char>::empty(),
        TokenView::Variable(s) => s,
        TokenView::Value(s) => s,
    }
}

/// The texts of tokens, one after another.
pub open spec fn texts_of(ts: Seq<TokenView>) -> Seq<char>
    decreases ts.len(),
{
    if ts.len() == 0 {
        Seq::<char>::empty()
    } else {
        token_text(ts[0]) + texts_of(ts.drop_first())
    }
}

/// Lexing loses and adds no character: the tokens' texts, one after
/// another, are the expression.
pub proof fn law_lex_keeps_text(s: Seq<char>)
    ensures
        texts_of(lex_spec(s)) == s,
    decreases s.len(),
{
    if s.len() > 0 {
        let ts = lex_spec(s);
        if is_symbol_char(s[0]) {
            law_lex_keeps_text(s.drop_first());
            assert(ts.drop_first() =~= lex_spec(s.drop_first()));
            assert(token_text(symbol_token(s[0])) =~= seq![s[0]]);
            assert(seq![s[0]] + s.drop_first() =~= s);
        } else {
            let n = run_len(s);
            lemma_run_len_bound(s);
            law_lex_keeps_text(s.skip(n as int));
            assert(ts.drop_first() =~= lex_spec(s.skip(n as int)));
            let w = s.take(n as int);
            assert(w[0] == s[0]);
            assert(token_text(token_of(w)) == w);
            assert(w + s.skip(n as int) =~= s);
        }
    }
}

} // verus!
