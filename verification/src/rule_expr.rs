//! The grammar of rule expressions: a sum is products joined by `+` and `-`, a product
//! is signed primaries joined by `*` and `/`, and a primary is a number, a variable or
//! a parenthesised sum. Parsing builds a tree in evaluation order; where parsing stops,
//! the tree holds a stop node at that place, so an evaluator that walks the tree left to
//! right meets each undefined variable, zero divisor and malformed part exactly when it
//! reaches it. Tokens after a complete sum are left unread.
use vstd::prelude::*;
use crate::rule_text::{Token, TokenView, token_views};

verus! {

/// Why parsing stopped.
pub enum ParseStop {
    /// The tokens ended where an operand was expected.
    UnexpectedEnd,
    /// A parenthesised sum was not followed by `)`.
    MissingParen,
    /// An operator or `)` stood where an operand was expected: its position and the token.
    UnexpectedToken(usize, Token),
}

/// The view of a [`ParseStop`].
pub enum StopView {
    UnexpectedEnd,
    MissingParen,
    UnexpectedToken(int, TokenView),
}

/// A parsed rule expression.
pub enum Expr {
    /// A number, as written.
    Number(String),
    /// A variable, by name.
    Var(String),
    Neg(Box<Expr>),
    Add(Box<Expr>, Box<Expr>),
    Sub(Box<Expr>, Box<Expr>),
    Mul(Box<Expr>, Box<Expr>),
    Div(Box<Expr>, Box<Expr>),
    /// Parsing stopped here.
    Stop(ParseStop),
    /// Parsing stopped right after this sub-expression.
    StopAfter(Box<Expr>, ParseStop),
}

/// The view of an [`Expr`]: the same tree over texts as character sequences.
pub enum ExprView {
    Number(Seq<char>),
    Var(Seq<char>),
    Neg(Box<ExprView>),
    Add(Box<ExprView>, Box<ExprView>),
    Sub(Box<ExprView>, Box<ExprView>),
    Mul(Box<ExprView>, Box<ExprView>),
    Div(Box<ExprView>, Box<ExprView>),
    Stop(StopView),
    StopAfter(Box<ExprView>, StopView),
}

impl ParseStop {
    pub open spec fn stop_view(&self) -> StopView {
        match self {
            ParseStop::UnexpectedEnd => StopView::UnexpectedEnd,
            ParseStop::MissingParen => StopView::MissingParen,
            ParseStop::UnexpectedToken(p, t) => StopView::UnexpectedToken(*p as int, t.view_spec()),
        }
    }
}

impl Expr {
    pub open spec fn expr_view(&self) -> ExprView
        decreases self,
    {
        match self {
            Expr::Number(s) => ExprView::Number(s@),
            Expr::Var(s) => ExprView::Var(s@),
            Expr::Neg(a) => ExprView::Neg(Box::new(a.expr_view())),
            Expr::Add(a, b) => ExprView::Add(Box::new(a.expr_view()), Box::new(b.expr_view())),
            Expr::Sub(a, b) => ExprView::Sub(Box::new(a.expr_view()), Box::new(b.expr_view())),
            Expr::Mul(a, b) => ExprView::Mul(Box::new(a.expr_view()), Box::new(b.expr_view())),
            Expr::Div(a, b) => ExprView::Div(Box::new(a.expr_view()), Box::new(b.expr_view())),
            Expr::Stop(s) => ExprView::Stop(s.stop_view()),
            Expr::StopAfter(a, s) => ExprView::StopAfter(Box::new(a.expr_view()), s.stop_view()),
        }
    }
}

/// A parse result: the tree, the position after it, and whether parsing went on to
/// the end of the construct.
pub open spec fn result_view(r: (Expr, usize, bool)) -> (ExprView, int, bool) {
    (r.0.expr_view(), r.1 as int, r.2)
}

/// A sum starting at `pos`.
pub open spec fn sum_at(t: Seq<TokenView>, pos: int) -> (ExprView, int, bool)
    decreases t.len() - pos, 6int,
{
    let (l, p, ok) = product_at(t, pos);
    if ok && pos <= p <= t.len() {
        sum_rest(t, l, p)
    } else {
        (l, p, ok)
    }
}

/// The rest of a sum whose terms so far make `acc`, from `pos` on.
pub open spec fn sum_rest(t: Seq<TokenView>, acc: ExprView, pos: int) -> (ExprView, int, bool)
    decreases t.len() - pos, 5int,
{
    if 0 <= pos < t.len() && (t[pos] is Plus || t[pos] is Minus) {
        let (r, p, ok) = product_at(t, pos + 1);
        let e = if t[pos] is Plus {
            ExprView::Add(Box::new(acc), Box::new(r))
        } else {
            ExprView::Sub(Box::new(acc), Box::new(r))
        };
        if ok && pos < p <= t.len() {
            sum_rest(t, e, p)
        } else {
            (e, p, ok)
        }
    } else {
        (acc, pos, true)
    }
}

/// A product starting at `pos`.
pub open spec fn product_at(t: Seq<TokenView>, pos: int) -> (ExprView, int, bool)
    decreases t.len() - pos, 4int,
{
    let (l, p, ok) = unary_at(t, pos);
    if ok && pos <= p <= t.len() {
        product_rest(t, l, p)
    } else {
        (l, p, ok)
    }
}

/// The rest of a product whose factors so far make `acc`, from `pos` on.
pub open spec fn product_rest(t: Seq<TokenView>, acc: ExprView, pos: int) -> (ExprView, int, bool)
    decreases t.len() - pos, 3int,
{
    if 0 <= pos < t.len() && (t[pos] is Star || t[pos] is Slash) {
        let (r, p, ok) = unary_at(t, pos + 1);
        let e = if t[pos] is Star {
            ExprView::Mul(Box::new(acc), Box::new(r))
        } else {
            ExprView::Div(Box::new(acc), Box::new(r))
        };
        if ok && pos < p <= t.len() {
            product_rest(t, e, p)
        } else {
            (e, p, ok)
        }
    } else {
        (acc, pos, true)
    }
}

/// A primary with at most one sign before it, starting at `pos`.
pub open spec fn unary_at(t: Seq<TokenView>, pos: int) -> (ExprView, int, bool)
    decreases t.len() - pos, 2int,
{
    if 0 <= pos < t.len() && t[pos] is Minus {
        let (v, p, ok) = primary_at(t, pos + 1);
        (ExprView::Neg(Box::new(v)), p, ok)
    } else if 0 <= pos < t.len() && t[pos] is Plus {
        primary_at(t, pos + 1)
    } else {
        primary_at(t, pos)
    }
}

/// A number, a variable or a parenthesised sum, starting at `pos`.
pub open spec fn primary_at(t: Seq<TokenView>, pos: int) -> (ExprView, int, bool)
    decreases t.len() - pos, 1int,
{
    if pos < 0 || pos >= t.len() {
        (ExprView::Stop(StopView::UnexpectedEnd), pos, false)
    } else {
        match t[pos] {
            TokenView::Number(s) => (ExprView::Number(s), pos + 1, true),
            TokenView::Ident(s) => (ExprView::Var(s), pos + 1, true),
            TokenView::LParen => {
                let (v, p, ok) = sum_at(t, pos + 1);
                if !ok {
                    (v, p, false)
                } else if 0 <= p < t.len() && t[p] is RParen {
                    (v, p + 1, true)
                } else {
                    (ExprView::StopAfter(Box::new(v), StopView::MissingParen), p, false)
                }
            },
            _ => (ExprView::Stop(StopView::UnexpectedToken(pos, t[pos])), pos, false),
        }
    }
}

fn sum_exec(tokens: &[Token], pos: usize) -> (r: (Expr, usize, bool))
    requires
        pos <= tokens.len(),
    ensures
        result_view(r) == sum_at(token_views(tokens@), pos as int),
        pos <= r.1 <= tokens.len(),
    decreases tokens.len() - pos, 6usize,
{
    let ghost t = token_views(tokens@);
    let (first, p0, ok) = product_exec(tokens, pos);
    if !ok {
        return (first, p0, false);
    }
    let mut acc = first;
    let mut p = p0;
    loop
        invariant
            t == token_views(tokens@),
            t.len() == tokens@.len(),
            pos <= p <= tokens.len(),
            sum_rest(t, acc.expr_view(), p as int) == sum_at(t, pos as int),
        decreases tokens.len() - p,
    {
        if p >= tokens.len() {
            return (acc, p, true);
        }
        proof {
            assert(t[p as int] == tokens@[p as int].view_spec());
        }
        let kind: u8 = match &tokens[p] {
            Token::Plus => 1,
            Token::Minus => 2,
            _ => 0,
        };
        if kind == 0 {
            return (acc, p, true);
        }
        let (right, p2, ok2) = product_exec(tokens, p + 1);
        let e = if kind == 1 {
            Expr::Add(Box::new(acc), Box::new(right))
        } else {
            Expr::Sub(Box::new(acc), Box::new(right))
        };
        if !ok2 {
            return (e, p2, false);
        }
        acc = e;
        p = p2;
    }
}

fn product_exec(tokens: &[Token], pos: usize) -> (r: (Expr, usize, bool))
    requires
        pos <= tokens.len(),
    ensures
        result_view(r) == product_at(token_views(tokens@), pos as int),
        pos <= r.1 <= tokens.len(),
    decreases tokens.len() - pos, 4usize,
{
    let ghost t = token_views(tokens@);
    let (first, p0, ok) = unary_exec(tokens, pos);
    if !ok {
        return (first, p0, false);
    }
    let mut acc = first;
    let mut p = p0;
    loop
        invariant
            t == token_views(tokens@),
            t.len() == tokens@.len(),
            pos <= p <= tokens.len(),
            product_rest(t, acc.expr_view(), p as int) == product_at(t, pos as int),
        decreases tokens.len() - p,
    {
        if p >= tokens.len() {
            return (acc, p, true);
        }
        proof {
            assert(t[p as int] == tokens@[p as int].view_spec());
        }
        let kind: u8 = match &tokens[p] {
            Token::Star => 1,
            Token::Slash => 2,
            _ => 0,
        };
        if kind == 0 {
            return (acc, p, true);
        }
        let (right, p2, ok2) = unary_exec(tokens, p + 1);
        let e = if kind == 1 {
            Expr::Mul(Box::new(acc), Box::new(right))
        } else {
            Expr::Div(Box::new(acc), Box::new(right))
        };
        if !ok2 {
            return (e, p2, false);
        }
        acc = e;
        p = p2;
    }
}

fn unary_exec(tokens: &[Token], pos: usize) -> (r: (Expr, usize, bool))
    requires
        pos <= tokens.len(),
    ensures
        result_view(r) == unary_at(token_views(tokens@), pos as int),
        pos <= r.1 <= tokens.len(),
    decreases tokens.len() - pos, 2usize,
{
    let ghost t = token_views(tokens@);
    if pos < tokens.len() {
        proof {
            assert(t[pos as int] == tokens@[pos as int].view_spec());
        }
        match &tokens[pos] {
            Token::Minus => {
                let (v, p, ok) = primary_exec(tokens, pos + 1);
                return (Expr::Neg(Box::new(v)), p, ok);
            },
            Token::Plus => {
                return primary_exec(tokens, pos + 1);
            },
            _ => {},
        }
    }
    primary_exec(tokens, pos)
}

fn primary_exec(tokens: &[Token], pos: usize) -> (r: (Expr, usize, bool))
    requires
        pos <= tokens.len(),
    ensures
        result_view(r) == primary_at(token_views(tokens@), pos as int),
        pos <= r.1 <= tokens.len(),
    decreases tokens.len() - pos, 1usize,
{
    let ghost t = token_views(tokens@);
    if pos >= tokens.len() {
        return (Expr::Stop(ParseStop::UnexpectedEnd), pos, false);
    }
    proof {
        assert(t[pos as int] == tokens@[pos as int].view_spec());
    }
    match &tokens[pos] {
        Token::Number(s) => (Expr::Number(s.clone()), pos + 1, true),
        Token::Ident(s) => (Expr::Var(s.clone()), pos + 1, true),
        Token::LParen => {
            let (v, p, ok) = sum_exec(tokens, pos + 1);
            if !ok {
                return (v, p, false);
            }
            if p < tokens.len() {
                proof {
                    assert(t[p as int] == tokens@[p as int].view_spec());
                }
                if let Token::RParen = &tokens[p] {
                    return (v, p + 1, true);
                }
            }
            (Expr::StopAfter(Box::new(v), ParseStop::MissingParen), p, false)
        },
        Token::Plus => (Expr::Stop(ParseStop::UnexpectedToken(pos, Token::Plus)), pos, false),
        Token::Minus => (Expr::Stop(ParseStop::UnexpectedToken(pos, Token::Minus)), pos, false),
        Token::Star => (Expr::Stop(ParseStop::UnexpectedToken(pos, Token::Star)), pos, false),
        Token::Slash => (Expr::Stop(ParseStop::UnexpectedToken(pos, Token::Slash)), pos, false),
        Token::RParen => (Expr::Stop(ParseStop::UnexpectedToken(pos, Token::RParen)), pos, false),
    }
}

/// Whether a tree holds a node where parsing stopped.
pub open spec fn has_stop(e: ExprView) -> bool
    decreases e,
{
    match e {
        ExprView::Number(_) => false,
        ExprView::Var(_) => false,
        ExprView::Neg(a) => has_stop(*a),
        ExprView::Add(a, b) => has_stop(*a) || has_stop(*b),
        ExprView::Sub(a, b) => has_stop(*a) || has_stop(*b),
        ExprView::Mul(a, b) => has_stop(*a) || has_stop(*b),
        ExprView::Div(a, b) => has_stop(*a) || has_stop(*b),
        ExprView::Stop(_) => true,
        ExprView::StopAfter(_, _) => true,
    }
}

proof fn lemma_sum_stop(t: Seq<TokenView>, pos: int)
    requires
        0 <= pos <= t.len(),
    ensures
        sum_at(t, pos).2 <==> !has_stop(sum_at(t, pos).0),
    decreases t.len() - pos, 6int,
{
    lemma_product_stop(t, pos);
    let (l, p, ok) = product_at(t, pos);
    if ok && pos <= p <= t.len() {
        lemma_sum_rest_stop(t, l, p);
    }
}

proof fn lemma_sum_rest_stop(t: Seq<TokenView>, acc: ExprView, pos: int)
    requires
        0 <= pos <= t.len(),
        !has_stop(acc),
    ensures
        sum_rest(t, acc, pos).2 <==> !has_stop(sum_rest(t, acc, pos).0),
    decreases t.len() - pos, 5int,
{
    if 0 <= pos < t.len() && (t[pos] is Plus || t[pos] is Minus) {
        lemma_product_stop(t, pos + 1);
        let (r, p, ok) = product_at(t, pos + 1);
        let e = if t[pos] is Plus {
            ExprView::Add(Box::new(acc), Box::new(r))
        } else {
            ExprView::Sub(Box::new(acc), Box::new(r))
        };
        assert(has_stop(e) == has_stop(r));
        if ok && pos < p <= t.len() {
            lemma_sum_rest_stop(t, e, p);
        }
    }
}

proof fn lemma_product_stop(t: Seq<TokenView>, pos: int)
    requires
        0 <= pos <= t.len(),
    ensures
        product_at(t, pos).2 <==> !has_stop(product_at(t, pos).0),
    decreases t.len() - pos, 4int,
{
    lemma_unary_stop(t, pos);
    let (l, p, ok) = unary_at(t, pos);
    if ok && pos <= p <= t.len() {
        lemma_product_rest_stop(t, l, p);
    }
}

proof fn lemma_product_rest_stop(t: Seq<TokenView>, acc: ExprView, pos: int)
    requires
        0 <= pos <= t.len(),
        !has_stop(acc),
    ensures
        product_rest(t, acc, pos).2 <==> !has_stop(product_rest(t, acc, pos).0),
    decreases t.len() - pos, 3int,
{
    if 0 <= pos < t.len() && (t[pos] is Star || t[pos] is Slash) {
        lemma_unary_stop(t, pos + 1);
        let (r, p, ok) = unary_at(t, pos + 1);
        let e = if t[pos] is Star {
            ExprView::Mul(Box::new(acc), Box::new(r))
        } else {
            ExprView::Div(Box::new(acc), Box::new(r))
        };
        assert(has_stop(e) == has_stop(r));
        if ok && pos < p <= t.len() {
            lemma_product_rest_stop(t, e, p);
        }
    }
}

proof fn lemma_unary_stop(t: Seq<TokenView>, pos: int)
    requires
        0 <= pos <= t.len(),
    ensures
        unary_at(t, pos).2 <==> !has_stop(unary_at(t, pos).0),
    decreases t.len() - pos, 2int,
{
    if 0 <= pos < t.len() && (t[pos] is Minus || t[pos] is Plus) {
        lemma_primary_stop(t, pos + 1);
        let v = primary_at(t, pos + 1).0;
        assert(has_stop(ExprView::Neg(Box::new(v))) == has_stop(v));
    } else {
        lemma_primary_stop(t, pos);
    }
}

proof fn lemma_primary_stop(t: Seq<TokenView>, pos: int)
    requires
        0 <= pos <= t.len(),
    ensures
        primary_at(t, pos).2 <==> !has_stop(primary_at(t, pos).0),
    decreases t.len() - pos, 1int,
{
    if pos < t.len() && t[pos] is LParen {
        lemma_sum_stop(t, pos + 1);
    }
}

/// Parsing goes on to the end of a sum exactly when the tree it builds holds no node
/// where parsing stopped: a stop node marks every malformed expression, and only those.
pub proof fn lemma_parse_stops_only_at_stop_nodes(t: Seq<TokenView>)
    ensures
        sum_at(t, 0).2 <==> !has_stop(sum_at(t, 0).0),
{
    lemma_sum_stop(t, 0);
}

/// Parses the tokens of a rule expression as a sum from the first token on; tokens
/// after the sum are not read.
pub fn parse_expression(tokens: &[Token]) -> (r: Expr)
    ensures
        r.expr_view() == sum_at(token_views(tokens@), 0).0,
{
    let (e, _end, _ok) = sum_exec(tokens, 0);
    e
}

} // verus!

verus! {

/// An operator token: `+`, `-`, `*` or `/`.
pub open spec fn is_operator(t: TokenView) -> bool {
    t is Plus || t is Minus || t is Star || t is Slash
}

/// A multiplicative operator token: `*` or `/`.
pub open spec fn is_mul_op(t: TokenView) -> bool {
    t is Star || t is Slash
}

proof fn lemma_sum_end(t: Seq<TokenView>, pos: int)
    requires
        0 <= pos <= t.len(),
    ensures
        sum_at(t, pos).2 ==> pos < sum_at(t, pos).1 <= t.len() && (sum_at(t, pos).1 == t.len() || !is_operator(t[sum_at(t, pos).1])),
    decreases t.len() - pos, 6int,
{
    lemma_product_end(t, pos);
    let (l, p, ok) = product_at(t, pos);
    if ok && pos <= p <= t.len() {
        lemma_sum_rest_end(t, l, p);
    }
}

proof fn lemma_sum_rest_end(t: Seq<TokenView>, acc: ExprView, pos: int)
    requires
        0 <= pos <= t.len(),
        pos == t.len() || !is_mul_op(t[pos]),
    ensures
        sum_rest(t, acc, pos).2 ==> pos <= sum_rest(t, acc, pos).1 <= t.len() && (sum_rest(t, acc, pos).1 == t.len() || !is_operator(
            t[sum_rest(t, acc, pos).1],
        )),
    decreases t.len() - pos, 5int,
{
    if 0 <= pos < t.len() && (t[pos] is Plus || t[pos] is Minus) {
        lemma_product_end(t, pos + 1);
        let (r, p, ok) = product_at(t, pos + 1);
        let e = if t[pos] is Plus {
            ExprView::Add(Box::new(acc), Box::new(r))
        } else {
            ExprView::Sub(Box::new(acc), Box::new(r))
        };
        if ok && pos < p <= t.len() {
            lemma_sum_rest_end(t, e, p);
        }
    }
}

proof fn lemma_product_end(t: Seq<TokenView>, pos: int)
    requires
        0 <= pos <= t.len(),
    ensures
        product_at(t, pos).2 ==> pos < product_at(t, pos).1 <= t.len() && (product_at(t, pos).1 == t.len() || !is_mul_op(
            t[product_at(t, pos).1],
        )),
    decreases t.len() - pos, 4int,
{
    lemma_unary_end(t, pos);
    let (l, p, ok) = unary_at(t, pos);
    if ok && pos <= p <= t.len() {
        lemma_product_rest_end(t, l, p);
    }
}

proof fn lemma_product_rest_end(t: Seq<TokenView>, acc: ExprView, pos: int)
    requires
        0 <= pos <= t.len(),
    ensures
        product_rest(t, acc, pos).2 ==> pos <= product_rest(t, acc, pos).1 <= t.len() && (product_rest(t, acc, pos).1 == t.len()
            || !is_mul_op(t[product_rest(t, acc, pos).1])),
    decreases t.len() - pos, 3int,
{
    if 0 <= pos < t.len() && (t[pos] is Star || t[pos] is Slash) {
        lemma_unary_end(t, pos + 1);
        let (r, p, ok) = unary_at(t, pos + 1);
        let e = if t[pos] is Star {
            ExprView::Mul(Box::new(acc), Box::new(r))
        } else {
            ExprView::Div(Box::new(acc), Box::new(r))
        };
        if ok && pos < p <= t.len() {
            lemma_product_rest_end(t, e, p);
        }
    }
}

proof fn lemma_unary_end(t: Seq<TokenView>, pos: int)
    requires
        0 <= pos <= t.len(),
    ensures
        unary_at(t, pos).2 ==> pos < unary_at(t, pos).1 <= t.len(),
    decreases t.len() - pos, 2int,
{
    if 0 <= pos < t.len() && (t[pos] is Minus || t[pos] is Plus) {
        lemma_primary_end(t, pos + 1);
    } else {
        lemma_primary_end(t, pos);
    }
}

proof fn lemma_primary_end(t: Seq<TokenView>, pos: int)
    requires
        0 <= pos <= t.len(),
    ensures
        primary_at(t, pos).2 ==> pos < primary_at(t, pos).1 <= t.len(),
    decreases t.len() - pos, 1int,
{
    if pos < t.len() && t[pos] is LParen {
        lemma_sum_end(t, pos + 1);
    }
}

/// A complete parse reads on as long as an operator follows: it ends at the end of the
/// tokens or before a token that cannot continue an expression, never before `+`, `-`,
/// `*` or `/`.
pub proof fn lemma_parse_reads_all_operators(t: Seq<TokenView>)
    ensures
        sum_at(t, 0).2 ==> 0 < sum_at(t, 0).1 <= t.len() && (sum_at(t, 0).1 == t.len() || !is_operator(t[sum_at(t, 0).1])),
{
    lemma_sum_end(t, 0);
}

/// Two token sequences that agree from `pos` on.
pub open spec fn same_from(a: Seq<TokenView>, b: Seq<TokenView>, pos: int) -> bool {
    a.len() == b.len() && forall|k: int| pos <= k < a.len() ==> a[k] == b[k]
}

proof fn lemma_sum_frame(a: Seq<TokenView>, b: Seq<TokenView>, pos: int)
    requires
        0 <= pos,
        same_from(a, b, pos),
    ensures
        sum_at(a, pos) == sum_at(b, pos),
    decreases a.len() - pos, 6int,
{
    lemma_product_frame(a, b, pos);
    let (l, p, ok) = product_at(a, pos);
    if ok && pos <= p <= a.len() {
        lemma_sum_rest_frame(a, b, l, p);
    }
}

proof fn lemma_sum_rest_frame(a: Seq<TokenView>, b: Seq<TokenView>, acc: ExprView, pos: int)
    requires
        0 <= pos,
        same_from(a, b, pos),
    ensures
        sum_rest(a, acc, pos) == sum_rest(b, acc, pos),
    decreases a.len() - pos, 5int,
{
    if 0 <= pos < a.len() && (a[pos] is Plus || a[pos] is Minus) {
        lemma_product_frame(a, b, pos + 1);
        let (r, p, ok) = product_at(a, pos + 1);
        let e = if a[pos] is Plus {
            ExprView::Add(Box::new(acc), Box::new(r))
        } else {
            ExprView::Sub(Box::new(acc), Box::new(r))
        };
        if ok && pos < p <= a.len() {
            lemma_sum_rest_frame(a, b, e, p);
        }
    }
}

proof fn lemma_product_frame(a: Seq<TokenView>, b: Seq<TokenView>, pos: int)
    requires
        0 <= pos,
        same_from(a, b, pos),
    ensures
        product_at(a, pos) == product_at(b, pos),
    decreases a.len() - pos, 4int,
{
    lemma_unary_frame(a, b, pos);
    let (l, p, ok) = unary_at(a, pos);
    if ok && pos <= p <= a.len() {
        lemma_product_rest_frame(a, b, l, p);
    }
}

proof fn lemma_product_rest_frame(a: Seq<TokenView>, b: Seq<TokenView>, acc: ExprView, pos: int)
    requires
        0 <= pos,
        same_from(a, b, pos),
    ensures
        product_rest(a, acc, pos) == product_rest(b, acc, pos),
    decreases a.len() - pos, 3int,
{
    if 0 <= pos < a.len() && (a[pos] is Star || a[pos] is Slash) {
        lemma_unary_frame(a, b, pos + 1);
        let (r, p, ok) = unary_at(a, pos + 1);
        let e = if a[pos] is Star {
            ExprView::Mul(Box::new(acc), Box::new(r))
        } else {
            ExprView::Div(Box::new(acc), Box::new(r))
        };
        if ok && pos < p <= a.len() {
            lemma_product_rest_frame(a, b, e, p);
        }
    }
}

proof fn lemma_unary_frame(a: Seq<TokenView>, b: Seq<TokenView>, pos: int)
    requires
        0 <= pos,
        same_from(a, b, pos),
    ensures
        unary_at(a, pos) == unary_at(b, pos),
    decreases a.len() - pos, 2int,
{
    if 0 <= pos < a.len() && (a[pos] is Minus || a[pos] is Plus) {
        lemma_primary_frame(a, b, pos + 1);
    } else {
        lemma_primary_frame(a, b, pos);
    }
}

proof fn lemma_primary_frame(a: Seq<TokenView>, b: Seq<TokenView>, pos: int)
    requires
        0 <= pos,
        same_from(a, b, pos),
    ensures
        primary_at(a, pos) == primary_at(b, pos),
    decreases a.len() - pos, 1int,
{
    if pos < a.len() {
        assert(a[pos] == b[pos]);
        if a[pos] is LParen {
            lemma_sum_frame(a, b, pos + 1);
            lemma_sum_end(a, pos + 1);
            let p = sum_at(a, pos + 1).1;
            if sum_at(a, pos + 1).2 && p < a.len() {
                assert(a[p] == b[p]);
            }
        }
    }
}

/// `-` takes the same right operand as `+`: for a variable `x` and tokens `p` holding
/// no `+` or `-`, parsing `x - p` and `x + p` builds `Sub(x, r)` and `Add(x, r)` with the
/// same right operand `r` (the whole product `p` starts with), and stops at the same place.
pub proof fn lemma_minus_binds_like_plus(x: Seq<char>, p: Seq<TokenView>)
    requires
        forall|k: int| 0 <= k < p.len() ==> !((#[trigger] p[k]) is Plus || p[k] is Minus),
    ensures
        ({
            let tm = seq![TokenView::Ident(x), TokenView::Minus] + p;
            let tp = seq![TokenView::Ident(x), TokenView::Plus] + p;
            &&& sum_at(tm, 0).1 == sum_at(tp, 0).1
            &&& sum_at(tm, 0).2 == sum_at(tp, 0).2
            &&& (sum_at(tm, 0).0 matches ExprView::Sub(l, r) && *l == ExprView::Var(x) && sum_at(tp, 0).0 == ExprView::Add(
                l,
                r,
            ))
        }),
{
    let tm = seq![TokenView::Ident(x), TokenView::Minus] + p;
    let tp = seq![TokenView::Ident(x), TokenView::Plus] + p;
    assert(tm[0] == TokenView::Ident(x) && tm[1] == TokenView::Minus);
    assert(tp[0] == TokenView::Ident(x) && tp[1] == TokenView::Plus);
    assert(same_from(tm, tp, 2)) by {
        assert forall|k: int| 2 <= k < tm.len() implies tm[k] == tp[k] by {
            assert(tm[k] == p[k - 2] && tp[k] == p[k - 2]);
        }
    }
    lemma_product_frame(tm, tp, 2);
    lemma_product_end(tm, 2);
    let v = ExprView::Var(x);
    assert(primary_at(tm, 0) == (v, 1int, true));
    assert(unary_at(tm, 0) == (v, 1int, true));
    assert(product_rest(tm, v, 1) == (v, 1int, true));
    assert(product_at(tm, 0) == (v, 1int, true));
    assert(primary_at(tp, 0) == (v, 1int, true));
    assert(unary_at(tp, 0) == (v, 1int, true));
    assert(product_rest(tp, v, 1) == (v, 1int, true));
    assert(product_at(tp, 0) == (v, 1int, true));
    let (r, q, ok) = product_at(tm, 2);
    let em = ExprView::Sub(Box::new(v), Box::new(r));
    let ep = ExprView::Add(Box::new(v), Box::new(r));
    if ok && 1 < q <= tm.len() {
        if q < tm.len() {
            assert(tm[q] == p[q - 2] && tp[q] == p[q - 2]);
        }
        assert(sum_rest(tm, em, q) == (em, q, true));
        assert(sum_rest(tp, ep, q) == (ep, q, true));
    }
    assert(sum_rest(tm, v, 1) == sum_rest(tm, em, q) || sum_rest(tm, v, 1) == (em, q, ok));
}

} // verus!

verus! {

/// `b` is `a` followed by more tokens, the first of which is `+` or `-`.
pub open spec fn extends_with_sign(a: Seq<TokenView>, b: Seq<TokenView>) -> bool {
    &&& b.len() > a.len()
    &&& forall|k: int| 0 <= k < a.len() ==> #[trigger] b[k] == a[k]
    &&& (b[a.len() as int] is Plus || b[a.len() as int] is Minus)
}

proof fn lemma_primary_ext(a: Seq<TokenView>, b: Seq<TokenView>, pos: int)
    requires
        0 <= pos <= a.len(),
        extends_with_sign(a, b),
    ensures
        primary_at(a, pos).2 ==> primary_at(b, pos) == primary_at(a, pos),
    decreases a.len() - pos, 1int,
{
    if pos < a.len() {
        assert(b[pos] == a[pos]);
        if a[pos] is LParen {
            lemma_sum_ext(a, b, pos + 1);
            lemma_sum_end(a, pos + 1);
            let p = sum_at(a, pos + 1).1;
            if sum_at(a, pos + 1).2 && 0 <= p < a.len() {
                assert(b[p] == a[p]);
            }
        }
    }
}

proof fn lemma_unary_ext(a: Seq<TokenView>, b: Seq<TokenView>, pos: int)
    requires
        0 <= pos <= a.len(),
        extends_with_sign(a, b),
    ensures
        unary_at(a, pos).2 ==> unary_at(b, pos) == unary_at(a, pos),
    decreases a.len() - pos, 2int,
{
    if pos < a.len() {
        assert(b[pos] == a[pos]);
        if a[pos] is Minus || a[pos] is Plus {
            lemma_primary_ext(a, b, pos + 1);
        } else {
            lemma_primary_ext(a, b, pos);
        }
    }
}

proof fn lemma_product_rest_ext(a: Seq<TokenView>, b: Seq<TokenView>, acc: ExprView, pos: int)
    requires
        0 <= pos <= a.len(),
        extends_with_sign(a, b),
    ensures
        product_rest(a, acc, pos).2 ==> product_rest(b, acc, pos) == product_rest(a, acc, pos),
    decreases a.len() - pos, 3int,
{
    if pos < a.len() {
        assert(b[pos] == a[pos]);
        if a[pos] is Star || a[pos] is Slash {
            lemma_unary_ext(a, b, pos + 1);
            lemma_unary_end(a, pos + 1);
            let (r, p, ok) = unary_at(a, pos + 1);
            let e = if a[pos] is Star {
                ExprView::Mul(Box::new(acc), Box::new(r))
            } else {
                ExprView::Div(Box::new(acc), Box::new(r))
            };
            if ok && pos < p <= a.len() {
                lemma_product_rest_ext(a, b, e, p);
            }
        }
    }
}

proof fn lemma_product_ext(a: Seq<TokenView>, b: Seq<TokenView>, pos: int)
    requires
        0 <= pos <= a.len(),
        extends_with_sign(a, b),
    ensures
        product_at(a, pos).2 ==> product_at(b, pos) == product_at(a, pos),
    decreases a.len() - pos, 4int,
{
    lemma_unary_ext(a, b, pos);
    lemma_unary_end(a, pos);
    let (l, p, ok) = unary_at(a, pos);
    if ok && pos <= p <= a.len() {
        lemma_product_rest_ext(a, b, l, p);
    }
}

proof fn lemma_sum_rest_ext(a: Seq<TokenView>, b: Seq<TokenView>, acc: ExprView, pos: int)
    requires
        0 <= pos <= a.len(),
        extends_with_sign(a, b),
    ensures
        sum_rest(a, acc, pos).2 && sum_rest(a, acc, pos).1 < a.len() ==> sum_rest(b, acc, pos) == sum_rest(a, acc, pos),
        sum_rest(a, acc, pos).2 && sum_rest(a, acc, pos).1 == a.len() ==> sum_rest(b, acc, pos) == sum_rest(
            b,
            sum_rest(a, acc, pos).0,
            a.len() as int,
        ),
    decreases a.len() - pos, 5int,
{
    if pos < a.len() {
        assert(b[pos] == a[pos]);
        if a[pos] is Plus || a[pos] is Minus {
            lemma_product_ext(a, b, pos + 1);
            lemma_product_end(a, pos + 1);
            let (r, p, ok) = product_at(a, pos + 1);
            let e = if a[pos] is Plus {
                ExprView::Add(Box::new(acc), Box::new(r))
            } else {
                ExprView::Sub(Box::new(acc), Box::new(r))
            };
            if ok && pos < p <= a.len() {
                lemma_sum_rest_ext(a, b, e, p);
            }
        }
    }
}

proof fn lemma_sum_ext(a: Seq<TokenView>, b: Seq<TokenView>, pos: int)
    requires
        0 <= pos <= a.len(),
        extends_with_sign(a, b),
    ensures
        sum_at(a, pos).2 && sum_at(a, pos).1 < a.len() ==> sum_at(b, pos) == sum_at(a, pos),
        sum_at(a, pos).2 && sum_at(a, pos).1 == a.len() ==> sum_at(b, pos) == sum_rest(b, sum_at(a, pos).0, a.len() as int),
    decreases a.len() - pos, 6int,
{
    lemma_product_ext(a, b, pos);
    lemma_product_end(a, pos);
    let (l, p, ok) = product_at(a, pos);
    if ok && pos <= p <= a.len() {
        lemma_sum_rest_ext(a, b, l, p);
    }
}

/// Sums associate to the left: appending `+ y` or `- y` (a variable `y`) to tokens that
/// parse completely as a sum `e` gives `Add(e, y)` or `Sub(e, y)`, read to the end.
pub proof fn lemma_sum_appends_on_the_right(t: Seq<TokenView>, y: Seq<char>, minus: bool)
    requires
        sum_at(t, 0).2,
        sum_at(t, 0).1 == t.len(),
    ensures
        ({
            let op = if minus { TokenView::Minus } else { TokenView::Plus };
            let e = sum_at(t, 0).0;
            let v = ExprView::Var(y);
            sum_at(t + seq![op, TokenView::Ident(y)], 0) == (if minus {
                ExprView::Sub(Box::new(e), Box::new(v))
            } else {
                ExprView::Add(Box::new(e), Box::new(v))
            }, t.len() as int + 2, true)
        }),
{
    let op = if minus { TokenView::Minus } else { TokenView::Plus };
    let b = t + seq![op, TokenView::Ident(y)];
    let n = t.len() as int;
    assert(extends_with_sign(t, b)) by {
        assert(b[n] == op);
        assert forall|k: int| 0 <= k < t.len() implies #[trigger] b[k] == t[k] by {}
    }
    lemma_sum_ext(t, b, 0);
    let e = sum_at(t, 0).0;
    let v = ExprView::Var(y);
    assert(b[n] == op && b[n + 1] == TokenView::Ident(y) && b.len() == n + 2);
    assert(primary_at(b, n + 1) == (v, n + 2, true));
    assert(unary_at(b, n + 1) == (v, n + 2, true));
    assert(product_rest(b, v, n + 2) == (v, n + 2, true));
    assert(product_at(b, n + 1) == (v, n + 2, true));
    let r = if minus { ExprView::Sub(Box::new(e), Box::new(v)) } else { ExprView::Add(Box::new(e), Box::new(v)) };
    assert(sum_rest(b, r, n + 2) == (r, n + 2, true));
    assert(sum_rest(b, e, n) == (r, n + 2, true));
}

} // verus!
