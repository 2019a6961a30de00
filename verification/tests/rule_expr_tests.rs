use kicad_cdb::rule_text::check_subject;
use kicad_cdb::rule_expr::{parse_expression, Expr, ParseStop};
use kicad_cdb::rule_text::{tokenize, Token};

fn token_text(t: &Token) -> String {
    match t {
        Token::Number(s) => format!("num {}", s),
        Token::Ident(s) => format!("id {}", s),
        Token::Plus => "+".to_string(),
        Token::Minus => "-".to_string(),
        Token::Star => "*".to_string(),
        Token::Slash => "/".to_string(),
        Token::LParen => "(".to_string(),
        Token::RParen => ")".to_string(),
    }
}

fn stop_text(s: &ParseStop) -> String {
    match s {
        ParseStop::UnexpectedEnd => "end".to_string(),
        ParseStop::MissingParen => "paren".to_string(),
        ParseStop::UnexpectedToken(p, t) => format!("token {} {}", p, token_text(t)),
    }
}

fn show(e: &Expr) -> String {
    match e {
        Expr::Number(s) => s.clone(),
        Expr::Var(s) => s.clone(),
        Expr::Neg(a) => format!("(neg {})", show(a)),
        Expr::Add(a, b) => format!("(+ {} {})", show(a), show(b)),
        Expr::Sub(a, b) => format!("(- {} {})", show(a), show(b)),
        Expr::Mul(a, b) => format!("(* {} {})", show(a), show(b)),
        Expr::Div(a, b) => format!("(/ {} {})", show(a), show(b)),
        Expr::Stop(s) => format!("<{}>", stop_text(s)),
        Expr::StopAfter(a, s) => format!("{} <{}>", show(a), stop_text(s)),
    }
}

fn parse(text: &str) -> String {
    let scanned = tokenize(text);
    assert!(scanned.unexpected.is_none());
    show(&parse_expression(&scanned.tokens))
}

#[test]
fn parse_products_bind_tighter_than_sums() {
    assert_eq!(parse("2 + 3 * 4"), "(+ 2 (* 3 4))");
    assert_eq!(parse("2 * 3 + 4"), "(+ (* 2 3) 4)");
}

#[test]
fn parse_operators_group_to_the_left() {
    assert_eq!(parse("a - b - c"), "(- (- a b) c)");
    assert_eq!(parse("a / b * c"), "(* (/ a b) c)");
}

#[test]
fn parse_signs_and_parentheses() {
    assert_eq!(parse("-(a + 1)"), "(neg (+ a 1))");
    assert_eq!(parse("+x * 2"), "(* x 2)");
    assert_eq!(parse("trace_w * (1 + 0.5)"), "(* trace_w (+ 1 0.5))");
}

#[test]
fn parse_stops_where_the_expression_breaks() {
    assert_eq!(parse("1 +"), "(+ 1 <end>)");
    assert_eq!(parse(""), "<end>");
    assert_eq!(parse("(1 + 2"), "(+ 1 2) <paren>");
    assert_eq!(parse("* 2"), "<token 0 *>");
    assert_eq!(parse("a * --b"), "(* a (neg <token 3 ->))");
    assert_eq!(parse("2 * )"), "(* 2 <token 2 )>)");
}

#[test]
fn parse_leaves_tokens_after_a_complete_sum() {
    assert_eq!(parse("1 2"), "1");
    assert_eq!(parse("(a) )"), "a");
}

#[test]
fn check_subject_is_the_text_before_the_comparison() {
    assert_eq!(check_subject(" L_value >= l_min * 0.8"), "L_value");
    assert_eq!(check_subject("a!=b"), "a");
    assert_eq!(check_subject("  no comparison  "), "no comparison");
    assert_eq!(check_subject("<= 3"), "");
}
