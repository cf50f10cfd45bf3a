use dipper::lexer::lex;
use dipper::parser::{Expr, Parser};
use dipper::postfix::build_postfix;
use dipper::token::Token;

fn val(s: &str) -> Token {
    Token::Value(String::from(s))
}

fn var(s: &str) -> Token {
    Token::Variable(String::from(s))
}

/// Evaluates an expression tree with the arithmetic of the bot: literals
/// parse as `f64`, variables are looked up.
fn evaluate(e: &Expr, lookup: &dyn Fn(&str) -> f64) -> f64 {
    match e {
        Expr::Value(s) => s.parse().unwrap(),
        Expr::Variable(s) => lookup(s),
        Expr::Binary { op, left, right } => {
            let l = evaluate(left, lookup);
            let r = evaluate(right, lookup);
            match op {
                Token::Plus => l + r,
                Token::Minus => l - r,
                Token::Multiply => l * r,
                Token::Divide => l / r,
                Token::Exponent => l.powf(r),
                _ => 0.0,
            }
        }
    }
}

fn postfix_of(s: &str) -> Vec<Token> {
    build_postfix(lex(String::from(s)).unwrap())
}

#[test]
fn basic_lexing() {
    println!("Testing!");
    let test_s = String::from("2^(2+2)-5");
    let result = lex(test_s.clone());
    match result {
        Ok(v) => println!("{:?}", v),
        Err(_) => println!("Erred"),
    }
    let p = Parser::new(test_s).unwrap();
    let tree = p.expression().unwrap();
    println!("Result: {}", evaluate(&tree, &|_| 0.0));
    assert_eq!(true, true);
}

#[test]
fn lex_splits_at_operators_and_parentheses() {
    let toks = lex(String::from("2^(2+2)-5")).unwrap();
    assert_eq!(
        toks,
        vec![
            val("2"),
            Token::Exponent,
            Token::LParen,
            val("2"),
            Token::Plus,
            val("2"),
            Token::RParen,
            Token::Minus,
            val("5")
        ]
    );
}

#[test]
fn lex_keeps_runs_of_other_characters_together() {
    let toks = lex(String::from("BTC.LAST*2.5/ETH")).unwrap();
    assert_eq!(
        toks,
        vec![var("BTC.LAST"), Token::Multiply, val("2.5"), Token::Divide, var("ETH")]
    );
    assert_eq!(lex(String::from("")).unwrap(), vec![]);
    assert_eq!(lex(String::from("a b")).unwrap(), vec![var("a b")]);
}

#[test]
fn token_new_recognises_float_text() {
    assert_eq!(Token::new(String::from("+")), Token::Plus);
    assert_eq!(Token::new(String::from("^")), Token::Exponent);
    assert_eq!(Token::new(String::from(")")), Token::RParen);
    assert_eq!(Token::new(String::from("42")), val("42"));
    assert_eq!(Token::new(String::from("-3.5")), val("-3.5"));
    assert_eq!(Token::new(String::from("1e5")), val("1e5"));
    assert_eq!(Token::new(String::from("1.E-5")), val("1.E-5"));
    assert_eq!(Token::new(String::from(".5")), val(".5"));
    assert_eq!(Token::new(String::from("INF")), val("INF"));
    assert_eq!(Token::new(String::from("infinity")), val("infinity"));
    assert_eq!(Token::new(String::from("NaN")), val("NaN"));
    assert_eq!(Token::new(String::from("1e")), var("1e"));
    assert_eq!(Token::new(String::from(".")), var("."));
    assert_eq!(Token::new(String::from("1.2.3")), var("1.2.3"));
    assert_eq!(Token::new(String::from("BTC")), var("BTC"));
    assert_eq!(Token::new(String::from("")), var(""));
    // Every text the library reads as a value parses as an f64, and the
    // others do not.
    for s in ["42", "-3.5", "1e5", "1.E-5", ".5", "INF", "infinity", "NaN", "+0."] {
        assert!(s.parse::<f64>().is_ok(), "{}", s);
        assert_eq!(Token::new(String::from(s)), val(s));
    }
    for s in ["1e", ".", "1.2.3", "BTC", "", "+", "e5", "1e+"] {
        assert!(s.parse::<f64>().is_err(), "{}", s);
    }
}

#[test]
fn token_classification() {
    assert!(Token::Exponent.assoc_right());
    assert!(!Token::Plus.assoc_right());
    assert!(Token::Minus.assoc_left());
    assert!(!Token::Exponent.assoc_left());
    assert_eq!(Token::Plus.prec(), 2);
    assert_eq!(Token::Divide.prec(), 3);
    assert_eq!(Token::Exponent.prec(), 4);
    assert_eq!(Token::LParen.prec(), 0);
    assert_eq!(val("1").prec(), 0);
    assert!(Token::Multiply.is_op());
    assert!(!Token::LParen.is_op());
    assert!(val("1").is_val());
    assert!(var("x").is_val());
    assert!(!Token::Number.is_val());
    assert!(Token::LParen.is_lparen());
    assert!(Token::RParen.is_rparen());
}

#[test]
fn postfix_respects_precedence_and_parentheses() {
    assert_eq!(
        postfix_of("2^(2+2)-5"),
        vec![
            val("2"),
            val("2"),
            val("2"),
            Token::Plus,
            Token::Exponent,
            val("5"),
            Token::Minus
        ]
    );
    assert_eq!(
        postfix_of("1+2*3"),
        vec![val("1"), val("2"), val("3"), Token::Multiply, Token::Plus]
    );
}

#[test]
fn postfix_associativity() {
    assert_eq!(
        postfix_of("1-2-3"),
        vec![val("1"), val("2"), Token::Minus, val("3"), Token::Minus]
    );
    assert_eq!(
        postfix_of("2^3^2"),
        vec![val("2"), val("3"), val("2"), Token::Exponent, Token::Exponent]
    );
}

#[test]
fn postfix_keeps_operands_in_order() {
    let post = postfix_of("a*(b+c)/d-e");
    let operands: Vec<Token> = post.into_iter().filter(|t| t.is_val()).collect();
    assert_eq!(operands, vec![var("a"), var("b"), var("c"), var("d"), var("e")]);
}

#[test]
fn postfix_keeps_operators_and_drops_parens() {
    let post = postfix_of("(a+b)*(c-d)^e");
    let count = |k: &Token| post.iter().filter(|t| *t == k).count();
    assert_eq!(count(&Token::Plus), 1);
    assert_eq!(count(&Token::Minus), 1);
    assert_eq!(count(&Token::Multiply), 1);
    assert_eq!(count(&Token::Exponent), 1);
    assert_eq!(count(&Token::LParen), 0);
    assert_eq!(count(&Token::RParen), 0);
}

#[test]
fn postfix_of_unbalanced_parentheses() {
    // An unmatched opening parenthesis stays in the output; a closing one
    // never does.
    assert_eq!(
        postfix_of("(1+2"),
        vec![val("1"), val("2"), Token::Plus, Token::LParen]
    );
    assert_eq!(postfix_of("1+2)"), vec![val("1"), val("2"), Token::Plus]);
}

#[test]
fn parser_vars_in_order() {
    let p = Parser::new(String::from("BTC+ETH.HIGH24HR*BTC")).unwrap();
    assert_eq!(
        p.vars(),
        vec![String::from("BTC"), String::from("ETH.HIGH24HR"), String::from("BTC")]
    );
    let q = Parser::new(String::from("2*3")).unwrap();
    assert!(q.vars().is_empty());
}

#[test]
fn expression_tree_of_postfix() {
    let p = Parser::new(String::from("2^(2+2)-5")).unwrap();
    let tree = p.expression().unwrap();
    assert_eq!(evaluate(&tree, &|_| 0.0), 11.0);
    let q = Parser::new(String::from("a*b+c")).unwrap();
    let t = q.expression().unwrap();
    let lookup = |s: &str| match s {
        "a" => 2.0,
        "b" => 3.0,
        _ => 4.0,
    };
    assert_eq!(evaluate(&t, &lookup), 10.0);
    assert_eq!(
        t,
        Expr::Binary {
            op: Token::Plus,
            left: Box::new(Expr::Binary {
                op: Token::Multiply,
                left: Box::new(Expr::Variable(String::from("a"))),
                right: Box::new(Expr::Variable(String::from("b"))),
            }),
            right: Box::new(Expr::Variable(String::from("c"))),
        }
    );
}

#[test]
fn expression_tree_failures() {
    // An operator without two operands.
    assert_eq!(Parser::new(String::from("*2")).unwrap().expression(), None);
    // No operand at all.
    assert_eq!(Parser::new(String::from("")).unwrap().expression(), None);
    // Several results: the bottom one is the expression.
    assert_eq!(
        Parser::new(String::from("(1)(2)")).unwrap().expression(),
        Some(Expr::Value(String::from("1")))
    );
}

fn token_text(t: &Token) -> String {
    match t {
        Token::Plus => String::from("+"),
        Token::Minus => String::from("-"),
        Token::Multiply => String::from("*"),
        Token::Divide => String::from("/"),
        Token::Exponent => String::from("^"),
        Token::LParen => String::from("("),
        Token::RParen => String::from(")"),
        Token::Number => String::new(),
        Token::Variable(s) | Token::Value(s) => s.clone(),
    }
}

#[test]
fn lexing_keeps_every_character() {
    for text in ["2^(2+2)-5", "BTC.LAST * 2", "((", "a b+c", "", "1e-5"] {
        let toks = lex(String::from(text)).unwrap();
        let joined: String = toks.iter().map(token_text).collect();
        assert_eq!(joined, text);
    }
}

fn bin(op: Token, l: Expr, r: Expr) -> Expr {
    Expr::Binary { op, left: Box::new(l), right: Box::new(r) }
}

fn v(s: &str) -> Expr {
    Expr::Variable(String::from(s))
}

#[test]
fn written_expressions_read_back() {
    // a-(b-c): the right operand of '-' needs its parentheses.
    let t = Parser::new(String::from("a-(b-c)")).unwrap().expression().unwrap();
    assert_eq!(t, bin(Token::Minus, v("a"), bin(Token::Minus, v("b"), v("c"))));
    // a-b-c groups to the left.
    let t = Parser::new(String::from("a-b-c")).unwrap().expression().unwrap();
    assert_eq!(t, bin(Token::Minus, bin(Token::Minus, v("a"), v("b")), v("c")));
    // a^b^c groups to the right.
    let t = Parser::new(String::from("a^b^c")).unwrap().expression().unwrap();
    assert_eq!(t, bin(Token::Exponent, v("a"), bin(Token::Exponent, v("b"), v("c"))));
    // (a+b)*c^d/e
    let t = Parser::new(String::from("(a+b)*c^d/e")).unwrap().expression().unwrap();
    assert_eq!(
        t,
        bin(
            Token::Divide,
            bin(Token::Multiply, bin(Token::Plus, v("a"), v("b")), bin(Token::Exponent, v("c"), v("d"))),
            v("e")
        )
    );
}

#[test]
fn variables_listed_in_written_order() {
    let p = Parser::new(String::from("(a+b)*c^a")).unwrap();
    assert_eq!(
        p.vars(),
        vec![String::from("a"), String::from("b"), String::from("c"), String::from("a")]
    );
}
