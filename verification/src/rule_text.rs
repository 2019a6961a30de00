//! The text side of applying a design rule: the tokens of a formula or check
//! expression, the statements of a formula, the parts of an assignment, `key=value`
//! parameter lists, and the input and output contract checks. Numbers stay text here.
use vstd::prelude::*;
use crate::text::{append_chars, append_str, chars_of, chars_eq, string_from_chars, trim_chars, trim_slice};
use crate::rules::DesignRule;
use crate::composition::texts;

verus! {

/// A token of a rule expression; numbers and identifiers keep their text.
pub enum Token {
    Number(String),
    Ident(String),
    Plus,
    Minus,
    Star,
    Slash,
    LParen,
    RParen,
}

/// The view of a token: its kind and, for numbers and identifiers, its text.
pub enum TokenView {
    Number(Seq<char>),
    Ident(Seq<char>),
    Plus,
    Minus,
    Star,
    Slash,
    LParen,
    RParen,
}

impl Token {
    /// The token's kind and text.
    pub open spec fn view_spec(&self) -> TokenView {
        match self {
            Token::Number(s) => TokenView::Number(s@),
            Token::Ident(s) => TokenView::Ident(s@),
            Token::Plus => TokenView::Plus,
            Token::Minus => TokenView::Minus,
            Token::Star => TokenView::Star,
            Token::Slash => TokenView::Slash,
            Token::LParen => TokenView::LParen,
            Token::RParen => TokenView::RParen,
        }
    }
}

/// The views of a list of tokens.
pub open spec fn token_views(t: Seq<Token>) -> Seq<TokenView> {
    t.map_values(|x: Token| x.view_spec())
}

/// The result of scanning an expression: the tokens before the first character that
/// starts no token, and that character, if any.
pub struct Tokens {
    pub tokens: Vec<Token>,
    pub unexpected: Option<char>,
}

/// An ASCII digit.
pub open spec fn is_digit(c: char) -> bool {
    '0' <= c && c <= '9'
}

/// An ASCII letter.
pub open spec fn is_alpha(c: char) -> bool {
    ('a' <= c && c <= 'z') || ('A' <= c && c <= 'Z')
}

/// A character that continues a number at position `i`: a digit, a point, an exponent
/// mark, or a minus right after an exponent mark.
pub open spec fn number_char(c: Seq<char>, i: int) -> bool {
    is_digit(c[i]) || c[i] == '.' || c[i] == 'e' || c[i] == 'E' || (c[i] == '-' && i > 0 && (c[i - 1] == 'e'
        || c[i - 1] == 'E'))
}

/// A character that continues an identifier.
pub open spec fn ident_char(ch: char) -> bool {
    is_alpha(ch) || is_digit(ch) || ch == '_'
}

/// The end of the number that continues at `i`.
pub open spec fn number_end(c: Seq<char>, i: int) -> int
    decreases c.len() - i,
{
    if i < 0 || i >= c.len() || !number_char(c, i) {
        i
    } else {
        number_end(c, i + 1)
    }
}

/// The end of the identifier that continues at `i`.
pub open spec fn ident_end(c: Seq<char>, i: int) -> int
    decreases c.len() - i,
{
    if i < 0 || i >= c.len() || !ident_char(c[i]) {
        i
    } else {
        ident_end(c, i + 1)
    }
}

/// Tokens of `c` from position `i` on, and the first unexpected character.
pub open spec fn tokens_from(c: Seq<char>, i: int) -> (Seq<TokenView>, Option<char>)
    decreases c.len() - i,
{
    if i < 0 || i >= c.len() {
        (Seq::empty(), None)
    } else {
        let ch = c[i];
        if ch == ' ' || ch == '\t' || ch == '\n' {
            tokens_from(c, i + 1)
        } else if ch == '+' || ch == '-' || ch == '*' || ch == '/' || ch == '(' || ch == ')' {
            let t = if ch == '+' {
                TokenView::Plus
            } else if ch == '-' {
                TokenView::Minus
            } else if ch == '*' {
                TokenView::Star
            } else if ch == '/' {
                TokenView::Slash
            } else if ch == '(' {
                TokenView::LParen
            } else {
                TokenView::RParen
            };
            let rest = tokens_from(c, i + 1);
            (seq![t] + rest.0, rest.1)
        } else if is_digit(ch) || ch == '.' {
            let e = number_end(c, i + 1);
            let rest = if i < e && e <= c.len() { tokens_from(c, e) } else { (Seq::empty(), None) };
            (seq![TokenView::Number(c.subrange(i, e))] + rest.0, rest.1)
        } else if is_alpha(ch) || ch == '_' {
            let e = ident_end(c, i + 1);
            let rest = if i < e && e <= c.len() { tokens_from(c, e) } else { (Seq::empty(), None) };
            (seq![TokenView::Ident(c.subrange(i, e))] + rest.0, rest.1)
        } else {
            (Seq::empty(), Some(ch))
        }
    }
}

proof fn lemma_number_end(c: Seq<char>, i: int)
    requires
        0 <= i <= c.len(),
    ensures
        i <= number_end(c, i) <= c.len(),
        forall|k: int| i <= k < number_end(c, i) ==> number_char(c, k),
    decreases c.len() - i,
{
    if i < c.len() && number_char(c, i) {
        lemma_number_end(c, i + 1);
    }
}

proof fn lemma_ident_end(c: Seq<char>, i: int)
    requires
        0 <= i <= c.len(),
    ensures
        i <= ident_end(c, i) <= c.len(),
    decreases c.len() - i,
{
    if i < c.len() && ident_char(c[i]) {
        lemma_ident_end(c, i + 1);
    }
}

fn is_digit_exec(c: char) -> (b: bool)
    ensures
        b == is_digit(c),
{
    '0' <= c && c <= '9'
}

fn is_alpha_exec(c: char) -> (b: bool)
    ensures
        b == is_alpha(c),
{
    ('a' <= c && c <= 'z') || ('A' <= c && c <= 'Z')
}

/// Token text `c[a..b]`.
fn text_of(c: &[char], a: usize, b: usize) -> (s: String)
    requires
        a <= b <= c@.len(),
    ensures
        s@ == c@.subrange(a as int, b as int),
{
    let mut v: Vec<char> = Vec::new();
    let mut k: usize = a;
    while k < b
        invariant
            a <= k <= b <= c@.len(),
            v@ == c@.subrange(a as int, k as int),
        decreases b - k,
    {
        v.push(c[k]);
        k = k + 1;
        proof {
            assert(v@ =~= c@.subrange(a as int, k as int));
        }
    }
    string_from_chars(v.as_slice())
}

/// The tokens of a rule expression: numbers (digits, points, exponents), identifiers,
/// `+ - * / ( )`; spaces, tabs and newlines separate tokens. Scanning stops at the first
/// character that starts no token, which is returned with the tokens before it.
pub fn tokenize(expr: &str) -> (r: Tokens)
    ensures
        token_views(r.tokens@) == tokens_from(expr@, 0).0,
        r.unexpected == tokens_from(expr@, 0).1,
{
    let cv = chars_of(expr);
    let c = cv.as_slice();
    let ghost cs = expr@;
    let mut tokens: Vec<Token> = Vec::new();
    let mut i: usize = 0;
    while i < c.len()
        invariant
            c@ == cs,
            cs == expr@,
            i <= c@.len(),
            token_views(tokens@) + tokens_from(cs, i as int).0 == tokens_from(cs, 0).0,
            tokens_from(cs, i as int).1 == tokens_from(cs, 0).1,
        decreases c@.len() - i,
    {
        let ch = c[i];
        let ghost t0 = tokens@;
        if ch == ' ' || ch == '\t' || ch == '\n' {
            i = i + 1;
        } else if ch == '+' || ch == '-' || ch == '*' || ch == '/' || ch == '(' || ch == ')' {
            let t = if ch == '+' {
                Token::Plus
            } else if ch == '-' {
                Token::Minus
            } else if ch == '*' {
                Token::Star
            } else if ch == '/' {
                Token::Slash
            } else if ch == '(' {
                Token::LParen
            } else {
                Token::RParen
            };
            tokens.push(t);
            proof {
                assert(token_views(tokens@) =~= token_views(t0).push(t.view_spec()));
                assert(token_views(t0).push(t.view_spec()) + tokens_from(cs, i as int + 1).0
                    =~= token_views(t0) + (seq![t.view_spec()] + tokens_from(cs, i as int + 1).0));
            }
            i = i + 1;
        } else if is_digit_exec(ch) || ch == '.' {
            let start = i;
            i = i + 1;
            proof {
                lemma_number_end(cs, start as int + 1);
            }
            while i < c.len() && (is_digit_exec(c[i]) || c[i] == '.' || c[i] == 'e' || c[i] == 'E' || (c[i] == '-'
                && i > 0 && (c[i - 1] == 'e' || c[i - 1] == 'E')))
                invariant
                    c@ == cs,
                    start < i <= c@.len(),
                    number_end(cs, start as int + 1) == number_end(cs, i as int),
                decreases c@.len() - i,
            {
                i = i + 1;
            }
            let t = Token::Number(text_of(c, start, i));
            tokens.push(t);
            proof {
                assert(token_views(tokens@) =~= token_views(t0).push(t.view_spec()));
                assert(token_views(t0).push(t.view_spec()) + tokens_from(cs, i as int).0
                    =~= token_views(t0) + (seq![t.view_spec()] + tokens_from(cs, i as int).0));
            }
        } else if is_alpha_exec(ch) || ch == '_' {
            let start = i;
            i = i + 1;
            proof {
                lemma_ident_end(cs, start as int + 1);
            }
            while i < c.len() && (is_alpha_exec(c[i]) || is_digit_exec(c[i]) || c[i] == '_')
                invariant
                    c@ == cs,
                    start < i <= c@.len(),
                    ident_end(cs, start as int + 1) == ident_end(cs, i as int),
                decreases c@.len() - i,
            {
                i = i + 1;
            }
            let t = Token::Ident(text_of(c, start, i));
            tokens.push(t);
            proof {
                assert(token_views(tokens@) =~= token_views(t0).push(t.view_spec()));
                assert(token_views(t0).push(t.view_spec()) + tokens_from(cs, i as int).0
                    =~= token_views(t0) + (seq![t.view_spec()] + tokens_from(cs, i as int).0));
            }
        } else {
            proof {
                assert(cs[i as int] == ch);
                assert(!is_digit(ch) && !is_alpha(ch));
                assert(tokens_from(cs, i as int).1 == Some(ch));
                assert(tokens_from(cs, i as int).0 =~= Seq::<TokenView>::empty());
                assert(token_views(tokens@) =~= token_views(tokens@) + Seq::<TokenView>::empty());
            }
            return Tokens { tokens, unexpected: Some(ch) };
        }
    }
    proof {
        assert(token_views(tokens@) =~= token_views(tokens@) + Seq::<TokenView>::empty());
    }
    Tokens { tokens, unexpected: None }
}

/// The first position of `sep` in `c`.
pub open spec fn first_index(c: Seq<char>, sep: char) -> Option<int>
    decreases c.len(),
{
    if c.len() == 0 {
        None
    } else if c[0] == sep {
        Some(0)
    } else {
        match first_index(c.drop_first(), sep) {
            Some(k) => Some(k + 1),
            None => None,
        }
    }
}

proof fn lemma_first_index(c: Seq<char>, sep: char)
    ensures
        match first_index(c, sep) {
            Some(k) => 0 <= k < c.len() && c[k] == sep && forall|j: int| 0 <= j < k ==> c[j] != sep,
            None => forall|j: int| 0 <= j < c.len() ==> c[j] != sep,
        },
    decreases c.len(),
{
    if c.len() > 0 && c[0] != sep {
        lemma_first_index(c.drop_first(), sep);
        match first_index(c.drop_first(), sep) {
            Some(k) => {
                assert forall|j: int| 0 <= j < k + 1 implies c[j] != sep by {
                    if j > 0 {
                        assert(c[j] == c.drop_first()[j - 1]);
                    }
                }
            },
            None => {
                assert forall|j: int| 0 <= j < c.len() implies c[j] != sep by {
                    if j > 0 {
                        assert(c[j] == c.drop_first()[j - 1]);
                    }
                }
            },
        }
    }
}

/// The pieces of `c` between occurrences of `sep` (`str::split` with a character).
pub open spec fn split_on(c: Seq<char>, sep: char) -> Seq<Seq<char>>
    decreases c.len(),
{
    match first_index(c, sep) {
        None => seq![c],
        Some(k) => if 0 <= k < c.len() {
            seq![c.take(k)] + split_on(c.skip(k + 1), sep)
        } else {
            seq![c]
        },
    }
}

/// Position of the first `sep` in `c[from..]`, or `c.len()`.
fn find_char(c: &[char], from: usize, sep: char) -> (k: usize)
    requires
        from <= c@.len(),
    ensures
        from <= k <= c@.len(),
        forall|j: int| from <= j < k ==> c@[j] != sep,
        k < c@.len() ==> c@[k as int] == sep,
{
    let mut k = from;
    while k < c.len() && c[k] != sep
        invariant
            from <= k <= c@.len(),
            forall|j: int| from <= j < k ==> c@[j] != sep,
        decreases c@.len() - k,
    {
        k = k + 1;
    }
    k
}

/// `first_index` of a suffix, from the characters before the first separator.
proof fn lemma_first_index_at(c: Seq<char>, sep: char, k: int)
    requires
        0 <= k <= c.len(),
        forall|j: int| 0 <= j < k ==> c[j] != sep,
        k < c.len() ==> c[k] == sep,
    ensures
        first_index(c, sep) == (if k < c.len() { Some(k) } else { None::<int> }),
{
    lemma_first_index(c, sep);
    match first_index(c, sep) {
        Some(q) => {
            if q < k {
                assert(c[q] != sep);
            }
            if k < q {
                assert(c[k] != sep);
            }
        },
        None => {
            if k < c.len() {
                assert(c[k] != sep);
            }
        },
    }
}

/// The pieces of a text between occurrences of `sep`.
pub fn split_chars(c: &[char], sep: char) -> (r: Vec<Vec<char>>)
    ensures
        r@.map_values(|v: Vec<char>| v@) == split_on(c@, sep),
{
    let mut r: Vec<Vec<char>> = Vec::new();
    let mut from: usize = 0;
    proof {
        assert(c@.skip(0) =~= c@);
        assert(r@.map_values(|v: Vec<char>| v@) + split_on(c@, sep) =~= split_on(c@, sep));
    }
    loop
        invariant_except_break
            from <= c@.len(),
            r@.map_values(|v: Vec<char>| v@) + split_on(c@.skip(from as int), sep) == split_on(c@, sep),
        ensures
            r@.map_values(|v: Vec<char>| v@) == split_on(c@, sep),
        decreases c@.len() - from,
    {
        let k = find_char(c, from, sep);
        let ghost rest = c@.skip(from as int);
        let ghost r0 = r@;
        proof {
            assert forall|j: int| 0 <= j < k - from implies rest[j] != sep by {
                assert(rest[j] == c@[from + j]);
            }
            if k < c@.len() {
                assert(rest[k - from] == c@[k as int]);
            }
            lemma_first_index_at(rest, sep, k - from);
        }
        let mut piece: Vec<char> = Vec::new();
        let mut q = from;
        while q < k
            invariant
                from <= q <= k <= c@.len(),
                piece@ == c@.subrange(from as int, q as int),
            decreases k - q,
        {
            piece.push(c[q]);
            q = q + 1;
            proof {
                assert(piece@ =~= c@.subrange(from as int, q as int));
            }
        }
        r.push(piece);
        proof {
            assert(rest.take(k - from) =~= c@.subrange(from as int, k as int));
            assert(r@.map_values(|v: Vec<char>| v@) =~= r0.map_values(|v: Vec<char>| v@).push(c@.subrange(from as int, k as int)));
        }
        if k == c.len() {
            proof {
                assert(split_on(rest, sep) == seq![rest]);
                assert(rest =~= c@.subrange(from as int, k as int));
                assert(r0.map_values(|v: Vec<char>| v@).push(c@.subrange(from as int, k as int))
                    =~= r0.map_values(|v: Vec<char>| v@) + seq![rest]);
            }
            break;
        }
        proof {
            assert(rest.skip(k - from + 1) =~= c@.skip(k + 1));
            assert(split_on(rest, sep) == seq![rest.take(k - from)] + split_on(rest.skip(k - from + 1), sep));
            assert(r0.map_values(|v: Vec<char>| v@) + split_on(rest, sep)
                =~= r0.map_values(|v: Vec<char>| v@).push(c@.subrange(from as int, k as int)) + split_on(c@.skip(k + 1), sep));
        }
        from = k + 1;
    }
    r
}

/// A `key=value` piece split at its first `=`: the trimmed key and the raw value.
pub open spec fn kv_of(piece: Seq<char>) -> Option<(Seq<char>, Seq<char>)> {
    match first_index(piece, '=') {
        Some(k) => Some((trim_chars(piece.take(k)), piece.skip(k + 1))),
        None => None,
    }
}

/// The `key=value` pairs of the pieces, skipping pieces without `=`.
pub open spec fn kv_pairs_of(pieces: Seq<Seq<char>>) -> Seq<(Seq<char>, Seq<char>)>
    decreases pieces.len(),
{
    if pieces.len() == 0 {
        Seq::empty()
    } else {
        let rest = kv_pairs_of(pieces.drop_last());
        match kv_of(pieces.last()) {
            Some(p) => rest.push(p),
            None => rest,
        }
    }
}

/// Split a piece at its first `=`.
fn split_kv(piece: &[char]) -> (r: Option<(Vec<char>, Vec<char>)>)
    ensures
        match kv_of(piece@) {
            Some(p) => match r {
                Some(q) => q.0@ == p.0 && q.1@ == p.1,
                None => false,
            },
            None => r is None,
        },
{
    let k = find_char(piece, 0, '=');
    proof {
        assert(piece@.skip(0) =~= piece@);
        lemma_first_index_at(piece@, '=', k as int);
    }
    if k == piece.len() {
        return None;
    }
    let mut key: Vec<char> = Vec::new();
    let mut q: usize = 0;
    while q < k
        invariant
            q <= k < piece@.len(),
            key@ == piece@.take(q as int),
        decreases k - q,
    {
        key.push(piece[q]);
        q = q + 1;
        proof {
            assert(key@ =~= piece@.take(q as int));
        }
    }
    let mut value: Vec<char> = Vec::new();
    let mut q2: usize = k + 1;
    while q2 < piece.len()
        invariant
            k + 1 <= q2 <= piece@.len(),
            value@ == piece@.subrange(k + 1, q2 as int),
        decreases piece@.len() - q2,
    {
        value.push(piece[q2]);
        q2 = q2 + 1;
        proof {
            assert(value@ =~= piece@.subrange(k + 1, q2 as int));
        }
    }
    proof {
        assert(value@ =~= piece@.skip(k + 1));
    }
    Some((trim_slice(key.as_slice()), value))
}

/// A view of a list of text pairs.
pub open spec fn pair_texts(v: Seq<(String, String)>) -> Seq<(Seq<char>, Seq<char>)> {
    v.map_values(|p: (String, String)| (p.0@, p.1@))
}

/// The `key=value` pairs of a comma-separated parameter list such as `vin=12,vout=3`:
/// keys trimmed, values as written; pieces without `=` are skipped.
pub fn split_kv_pairs(s: &str) -> (r: Vec<(String, String)>)
    ensures
        pair_texts(r@) == kv_pairs_of(split_on(s@, ',')),
{
    let cs = chars_of(s);
    let pieces = split_chars(cs.as_slice(), ',');
    let ghost pv = pieces@.map_values(|v: Vec<char>| v@);
    let mut r: Vec<(String, String)> = Vec::new();
    let mut i: usize = 0;
    while i < pieces.len()
        invariant
            i <= pieces@.len(),
            pv == pieces@.map_values(|v: Vec<char>| v@),
            pv == split_on(s@, ','),
            pair_texts(r@) == kv_pairs_of(pv.take(i as int)),
        decreases pieces@.len() - i,
    {
        let ghost r0 = r@;
        proof {
            assert(pv.take(i as int + 1).drop_last() =~= pv.take(i as int));
            assert(pv.take(i as int + 1).last() == pieces@[i as int]@);
        }
        match split_kv(pieces[i].as_slice()) {
            Some((k, v)) => {
                r.push((string_from_chars(k.as_slice()), string_from_chars(v.as_slice())));
                proof {
                    assert(pair_texts(r@) =~= pair_texts(r0).push((k@, v@)));
                }
            },
            None => {},
        }
        i = i + 1;
    }
    proof {
        assert(pv.take(pieces@.len() as int) =~= pv);
    }
    r
}

/// A candidate `name=value` text: the trimmed name and the value text, or `None`
/// without `=`.
pub fn split_candidate(s: &str) -> (r: Option<(String, String)>)
    ensures
        match kv_of(s@) {
            Some(p) => match r {
                Some(q) => q.0@ == p.0 && q.1@ == p.1,
                None => false,
            },
            None => r is None,
        },
{
    let cs = chars_of(s);
    match split_kv(cs.as_slice()) {
        Some((k, v)) => Some((string_from_chars(k.as_slice()), string_from_chars(v.as_slice()))),
        None => None,
    }
}

/// The non-empty trimmed statements of a `;`-separated formula.
pub open spec fn statements_of(pieces: Seq<Seq<char>>) -> Seq<Seq<char>>
    decreases pieces.len(),
{
    if pieces.len() == 0 {
        Seq::empty()
    } else {
        let rest = statements_of(pieces.drop_last());
        let t = trim_chars(pieces.last());
        if t.len() > 0 {
            rest.push(t)
        } else {
            rest
        }
    }
}

/// The statements of a formula: its `;`-separated pieces, trimmed, empty ones dropped.
pub fn formula_statements(formula: &str) -> (r: Vec<String>)
    ensures
        texts(r@) == statements_of(split_on(formula@, ';')),
{
    let cs = chars_of(formula);
    let pieces = split_chars(cs.as_slice(), ';');
    let ghost pv = pieces@.map_values(|v: Vec<char>| v@);
    let mut r: Vec<String> = Vec::new();
    let mut i: usize = 0;
    while i < pieces.len()
        invariant
            i <= pieces@.len(),
            pv == pieces@.map_values(|v: Vec<char>| v@),
            pv == split_on(formula@, ';'),
            texts(r@) == statements_of(pv.take(i as int)),
        decreases pieces@.len() - i,
    {
        let ghost r0 = r@;
        proof {
            assert(pv.take(i as int + 1).drop_last() =~= pv.take(i as int));
            assert(pv.take(i as int + 1).last() == pieces@[i as int]@);
        }
        let t = trim_slice(pieces[i].as_slice());
        if t.len() > 0 {
            r.push(string_from_chars(t.as_slice()));
            proof {
                assert(texts(r@) =~= texts(r0).push(t@));
            }
        }
        i = i + 1;
    }
    proof {
        assert(pv.take(pieces@.len() as int) =~= pv);
    }
    r
}

/// An assignment statement split at its first `=`: the trimmed variable name and the
/// trimmed expression; `None` without `=`.
pub open spec fn assignment_of(stmt: Seq<char>) -> Option<(Seq<char>, Seq<char>)> {
    match first_index(stmt, '=') {
        Some(k) => Some((trim_chars(stmt.take(k)), trim_chars(stmt.skip(k + 1)))),
        None => None,
    }
}

/// The variable and expression of an assignment such as `l_min = vout / vin`.
pub fn split_assignment(stmt: &str) -> (r: Option<(String, String)>)
    ensures
        match assignment_of(stmt@) {
            Some(p) => match r {
                Some(q) => q.0@ == p.0 && q.1@ == p.1,
                None => false,
            },
            None => r is None,
        },
{
    let cs = chars_of(stmt);
    match split_kv(cs.as_slice()) {
        Some((k, v)) => {
            let e = trim_slice(v.as_slice());
            Some((string_from_chars(k.as_slice()), string_from_chars(e.as_slice())))
        },
        None => None,
    }
}

/// The error text for a formula without assignment.
pub open spec fn no_assignment_message(formula: Seq<char>) -> Seq<char> {
    "Formula must contain '=' assignment: "@ + formula
}

/// The error text for a formula without assignment.
pub fn no_assignment_error(formula: &str) -> (r: String)
    ensures
        r@ == no_assignment_message(formula@),
{
    let mut v = chars_of("Formula must contain '=' assignment: ");
    append_str(&mut v, formula);
    string_from_chars(v.as_slice())
}

/// The declared names that are not among the present ones, in declared order.
pub open spec fn missing_spec(declared: Seq<Seq<char>>, present: Seq<Seq<char>>) -> Seq<Seq<char>> {
    declared.filter(|n: Seq<char>| !present.contains(n))
}

/// Whether `x` is one of `present`.
fn contains_text(present: &[String], x: &[char]) -> (b: bool)
    ensures
        b == texts(present@).contains(x@),
{
    let mut i: usize = 0;
    while i < present.len()
        invariant
            i <= present@.len(),
            forall|j: int| 0 <= j < i ==> present@[j]@ != x@,
        decreases present@.len() - i,
    {
        let p = chars_of(present[i].as_str());
        if chars_eq(p.as_slice(), x) {
            proof {
                assert(texts(present@)[i as int] == x@);
            }
            return true;
        }
        i = i + 1;
    }
    proof {
        if texts(present@).contains(x@) {
            let j = choose|j: int| 0 <= j < texts(present@).len() && texts(present@)[j] == x@;
            assert(present@[j]@ == x@);
        }
    }
    false
}

/// The declared names (inputs of a rule, or its outputs) that are missing from the
/// present ones, in declared order.
pub fn missing_names(declared: &[String], present: &[String]) -> (r: Vec<String>)
    ensures
        texts(r@) == missing_spec(texts(declared@), texts(present@)),
{
    let ghost d = texts(declared@);
    let ghost pred = |n: Seq<char>| !texts(present@).contains(n);
    let mut r: Vec<String> = Vec::new();
    let mut i: usize = 0;
    while i < declared.len()
        invariant
            i <= declared@.len(),
            d == texts(declared@),
            forall|n: Seq<char>| #[trigger] pred(n) == !texts(present@).contains(n),
            texts(r@) == d.take(i as int).filter(pred),
        decreases declared@.len() - i,
    {
        let ghost r0 = r@;
        proof {
            d.take(i as int).lemma_filter_push(d[i as int], pred);
            assert(d.take(i as int).push(d[i as int]) =~= d.take(i as int + 1));
        }
        let x = chars_of(declared[i].as_str());
        if !contains_text(present, x.as_slice()) {
            r.push(string_from_chars(x.as_slice()));
            proof {
                assert(texts(r@) =~= texts(r0).push(x@));
            }
        }
        i = i + 1;
    }
    proof {
        assert(d.take(declared@.len() as int) =~= d);
    }
    r
}

/// Names joined with `, `.
pub open spec fn join_comma(names: Seq<Seq<char>>) -> Seq<char>
    decreases names.len(),
{
    if names.len() == 0 {
        Seq::empty()
    } else if names.len() == 1 {
        names[0]
    } else {
        join_comma(names.drop_last()) + ", "@ + names.last()
    }
}

/// Names joined with `, `.
pub fn join_names(names: &[String]) -> (r: Vec<char>)
    ensures
        r@ == join_comma(texts(names@)),
{
    let ghost t = texts(names@);
    let mut r: Vec<char> = Vec::new();
    let mut i: usize = 0;
    while i < names.len()
        invariant
            i <= names@.len(),
            t == texts(names@),
            r@ == join_comma(t.take(i as int)),
        decreases names@.len() - i,
    {
        proof {
            assert(t.take(i as int + 1).drop_last() =~= t.take(i as int));
            assert(t.take(i as int + 1).last() == names@[i as int]@);
        }
        if i > 0 {
            append_str(&mut r, ", ");
        } else {
            proof {
                assert(r@ =~= Seq::<char>::empty());
            }
        }
        append_str(&mut r, names[i].as_str());
        i = i + 1;
    }
    proof {
        assert(t.take(names@.len() as int) =~= t);
    }
    r
}

/// The error text when a rule's declared inputs are missing.
pub open spec fn missing_inputs_message(rule_name: Seq<char>, missing: Seq<Seq<char>>) -> Seq<char> {
    "Missing required inputs for '"@ + rule_name + "': "@ + join_comma(missing)
}

/// The error text when a rule's formula did not produce declared outputs.
pub open spec fn missing_outputs_message(rule_name: Seq<char>, declared_text: Option<Seq<char>>, missing: Seq<Seq<char>>) -> Seq<char> {
    "Rule '"@ + rule_name + "' declared outputs "@ + (match declared_text {
        Some(t) => t,
        None => "[]"@,
    }) + " but formula did not produce: "@ + join_comma(missing)
}

/// The parse of a JSON text as an array of strings, as `serde_json::from_str` gives it
/// (`None` when the text is not such an array).
pub uninterp spec fn json_string_array(s: Seq<char>) -> Option<Seq<Seq<char>>>;

/// `serde_json::from_str::<Vec<String>>`. Its result is a function of the text alone,
/// named `json_string_array`; nothing is stated of which texts parse.
#[verifier::external_body]
fn parse_string_array_json(s: &str) -> (r: Option<Vec<String>>)
    ensures
        match r {
            Some(v) => json_string_array(s@) == Some(texts(v@)),
            None => json_string_array(s@) is None,
        },
{
    serde_json::from_str::<Vec<String>>(s).ok()
}

/// The names a rule declares in a JSON array text: none when there is no text or it
/// does not parse.
pub open spec fn declared_names_spec(s: Option<Seq<char>>) -> Seq<Seq<char>> {
    match s {
        None => Seq::empty(),
        Some(p) => match json_string_array(p) {
            Some(v) => v,
            None => Seq::empty(),
        },
    }
}

/// The names declared in an optional JSON array text such as `["vin","vout"]`.
pub fn parse_json_array(s: &Option<String>) -> (r: Vec<String>)
    ensures
        texts(r@) == declared_names_spec(crate::symgen::opt_string_view(*s)),
{
    match s {
        Some(p) => match parse_string_array_json(p.as_str()) {
            Some(v) => v,
            None => {
                let v: Vec<String> = Vec::new();
                proof {
                    assert(texts(v@) =~= Seq::<Seq<char>>::empty());
                }
                v
            },
        },
        None => {
            let v: Vec<String> = Vec::new();
            proof {
                assert(texts(v@) =~= Seq::<Seq<char>>::empty());
            }
            v
        },
    }
}

/// The input contract of a rule: given the names of the inputs present, the error text
/// listing the declared inputs that are missing, or `None` when none is.
pub fn check_rule_inputs(rule: &DesignRule, present: &[String]) -> (r: Option<String>)
    ensures
        ({
            let missing = missing_spec(declared_names_spec(crate::symgen::opt_string_view(rule.parameters)), texts(present@));
            match r {
                None => missing.len() == 0,
                Some(m) => missing.len() > 0 && m@ == missing_inputs_message(rule.name@, missing),
            }
        }),
{
    let declared = parse_json_array(&rule.parameters);
    let missing = missing_names(declared.as_slice(), present);
    if missing.len() == 0 {
        return None;
    }
    let mut v = chars_of("Missing required inputs for '");
    append_str(&mut v, rule.name.as_str());
    append_str(&mut v, "': ");
    let j = join_names(missing.as_slice());
    append_chars(&mut v, j.as_slice());
    Some(string_from_chars(v.as_slice()))
}

/// The output contract of a rule: given the names its formula produced, the error text
/// listing the declared outputs that are missing, or `None` when none is.
pub fn check_rule_outputs(rule: &DesignRule, produced: &[String]) -> (r: Option<String>)
    ensures
        ({
            let missing = missing_spec(declared_names_spec(crate::symgen::opt_string_view(rule.output_params)), texts(produced@));
            match r {
                None => missing.len() == 0,
                Some(m) => missing.len() > 0 && m@ == missing_outputs_message(
                    rule.name@,
                    crate::symgen::opt_string_view(rule.output_params),
                    missing,
                ),
            }
        }),
{
    let declared = parse_json_array(&rule.output_params);
    let missing = missing_names(declared.as_slice(), produced);
    if missing.len() == 0 {
        return None;
    }
    let mut v = chars_of("Rule '");
    append_str(&mut v, rule.name.as_str());
    append_str(&mut v, "' declared outputs ");
    match &rule.output_params {
        Some(t) => append_str(&mut v, t.as_str()),
        None => append_str(&mut v, "[]"),
    }
    append_str(&mut v, " but formula did not produce: ");
    let j = join_names(missing.as_slice());
    append_chars(&mut v, j.as_slice());
    Some(string_from_chars(v.as_slice()))
}

/// A comparison character of a check expression.
pub open spec fn is_check_op_char(c: char) -> bool {
    c == '>' || c == '<' || c == '=' || c == '!'
}

/// The position of the first comparison character at or after `i`, or the length.
pub open spec fn check_op_end(c: Seq<char>, i: int) -> int
    decreases c.len() - i,
{
    if i < 0 || i >= c.len() || is_check_op_char(c[i]) {
        i
    } else {
        check_op_end(c, i + 1)
    }
}

/// The quantity a check expression tests: its text before the first of `> < = !`,
/// trimmed.
pub fn check_subject(check: &str) -> (r: String)
    ensures
        r@ == trim_chars(check@.take(check_op_end(check@, 0))),
{
    let c = chars_of(check);
    let mut i: usize = 0;
    while i < c.len() && !(c[i] == '>' || c[i] == '<' || c[i] == '=' || c[i] == '!')
        invariant
            i <= c@.len(),
            c@ == check@,
            check_op_end(check@, 0) == check_op_end(check@, i as int),
        decreases c@.len() - i,
    {
        i = i + 1;
    }
    let mut head: Vec<char> = Vec::new();
    let mut k: usize = 0;
    while k < i
        invariant
            k <= i <= c@.len(),
            head@ == c@.take(k as int),
        decreases i - k,
    {
        head.push(c[k]);
        k = k + 1;
        proof {
            assert(head@ =~= c@.take(k as int));
        }
    }
    let t = trim_slice(head.as_slice());
    string_from_chars(t.as_slice())
}

} // verus!
