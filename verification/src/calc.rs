//! Arithmetic, done rather than remembered: the expression read into tokens.
//!
//! The tokens are numbers, names, signs, brackets and commas. A number is
//! kept as the digits it was written with, an underscore between digits
//! dropped; working out what it comes to is arithmetic in floating point,
//! which is the application's part.
use vstd::prelude::*;

use crate::strs::{
    alnum_of, alphanumeric, chars_of, is_digit, is_ws, lower, lower_of, push_all, push_str,
    slice, string_of, ws,
};

verus! {

/// One piece of an expression.
#[derive(Clone, PartialEq, Debug)]
pub enum Token {
    /// A number, as its digits and its point.
    Number(String),
    /// A function's name, in lowercase.
    Name(String),
    /// One of `+ - * / % ^`.
    Sign(char),
    Open,
    Close,
    Comma,
}

/// A token as values.
pub enum TokenView {
    Number(Seq<char>),
    Name(Seq<char>),
    Sign(char),
    Open,
    Close,
    Comma,
}

impl View for Token {
    type V = TokenView;

    open spec fn view(&self) -> TokenView {
        match self {
            Token::Number(t) => TokenView::Number(t@),
            Token::Name(n) => TokenView::Name(n@),
            Token::Sign(c) => TokenView::Sign(*c),
            Token::Open => TokenView::Open,
            Token::Close => TokenView::Close,
            Token::Comma => TokenView::Comma,
        }
    }
}

/// Each token as values.
pub open spec fn token_views(v: Seq<Token>) -> Seq<TokenView> {
    v.map_values(|t: Token| t@)
}

/// What `char::is_alphabetic` says of a character: Unicode's letters, which
/// this does not restate.
pub uninterp spec fn alpha_of(c: char) -> bool;

/// `char::is_alphabetic`. Claimed: the answer is the named property of the
/// character, and depends on nothing else; for a character of ASCII it is
/// whether it is a letter.
#[verifier::external_body]
fn alphabetic(c: char) -> (r: bool)
    ensures
        r == alpha_of(c),
        crate::strs::is_ascii_char(c) ==> r == (('a' <= c && c <= 'z') || ('A' <= c && c <= 'Z')),
{
    c.is_alphabetic()
}

/// The number that starts at `i`: where it ends, and its digits and points,
/// an underscore followed by a digit passed over.
pub open spec fn number_run(c: Seq<char>, i: int) -> (int, Seq<char>)
    decreases c.len() - i,
{
    if i < 0 || i >= c.len() {
        (i, seq![])
    } else if is_digit(c[i]) || c[i] == '.' {
        let r = number_run(c, i + 1);
        (r.0, seq![c[i]] + r.1)
    } else if c[i] == '_' && i + 1 < c.len() && is_digit(c[i + 1]) {
        number_run(c, i + 1)
    } else {
        (i, seq![])
    }
}

/// How many points a run of digits has.
pub open spec fn points(t: Seq<char>) -> nat
    decreases t.len(),
{
    if t.len() == 0 {
        0
    } else {
        points(t.drop_last()) + if t.last() == '.' {
            1nat
        } else {
            0nat
        }
    }
}

/// Whether a run of digits and points is a number as `f64`'s parser reads
/// one: at most one point, and a digit somewhere.
pub open spec fn is_number(t: Seq<char>) -> bool {
    points(t) <= 1 && exists|k: int| 0 <= k < t.len() && is_digit(#[trigger] t[k])
}

/// Where the name that goes on at `i` ends: past its letters, digits and
/// underscores.
pub open spec fn name_end(c: Seq<char>, i: int) -> int
    decreases c.len() - i,
{
    if 0 <= i < c.len() && (alnum_of(c[i]) || c[i] == '_') {
        name_end(c, i + 1)
    } else {
        i
    }
}

/// Tokens in front of what follows, or what went wrong after them.
pub open spec fn then(t: Seq<TokenView>, rest: Result<Seq<TokenView>, Seq<char>>) -> Result<Seq<TokenView>, Seq<char>> {
    match rest {
        Ok(r) => Ok(t + r),
        Err(e) => Err(e),
    }
}

/// The one-character token a character is, if it is one.
pub open spec fn single(ch: char) -> Option<TokenView> {
    if ch == '+' || ch == '-' || ch == '*' || ch == '/' || ch == '%' || ch == '^' {
        Some(TokenView::Sign(ch))
    } else if ch == '\u{d7}' {
        Some(TokenView::Sign('*'))
    } else if ch == '\u{f7}' {
        Some(TokenView::Sign('/'))
    } else if ch == '(' || ch == '[' {
        Some(TokenView::Open)
    } else if ch == ')' || ch == ']' {
        Some(TokenView::Close)
    } else if ch == ',' {
        Some(TokenView::Comma)
    } else {
        None
    }
}

/// The tokens from character `i` on.
pub open spec fn scan_from(c: Seq<char>, i: int) -> Result<Seq<TokenView>, Seq<char>>
    decreases c.len() - i,
{
    if i < 0 || i >= c.len() {
        Ok(seq![])
    } else {
        let ch = c[i];
        if is_ws(ch) {
            scan_from(c, i + 1)
        } else if is_digit(ch) || ch == '.' {
            let r = number_run(c, i);
            if !is_number(r.1) {
                Err(r.1 + " is not a number"@)
            } else if i < r.0 <= c.len() {
                then(seq![TokenView::Number(r.1)], scan_from(c, r.0))
            } else {
                Err(seq![])
            }
        } else if alpha_of(ch) {
            let e = name_end(c, i + 1);
            if i < e <= c.len() {
                then(seq![TokenView::Name(lower_of(c.subrange(i, e)))], scan_from(c, e))
            } else {
                Err(seq![])
            }
        } else {
            match single(ch) {
                Some(t) => then(seq![t], scan_from(c, i + 1)),
                None => Err(seq![ch] + " is not something this can work out"@),
            }
        }
    }
}

/// An expression read into tokens: what went wrong, when something did, and
/// something to say when there is nothing to read.
pub open spec fn scan_of(text: Seq<char>) -> Result<Seq<TokenView>, Seq<char>> {
    match scan_from(text, 0) {
        Ok(ts) => if ts.len() == 0 {
            Err("there is nothing here to work out"@)
        } else {
            Ok(ts)
        },
        Err(e) => Err(e),
    }
}

proof fn lemma_then(a: Seq<TokenView>, b: Seq<TokenView>, x: Result<Seq<TokenView>, Seq<char>>)
    ensures
        then(a, then(b, x)) == then(a + b, x),
{
    match x {
        Ok(r) => {
            assert(a + (b + r) =~= (a + b) + r);
        },
        Err(_) => {},
    }
}

proof fn lemma_number_run(c: Seq<char>, i: int)
    requires
        0 <= i < c.len(),
        is_digit(c[i]) || c[i] == '.',
    ensures
        i < number_run(c, i).0 <= c.len(),
    decreases c.len() - i,
{
    lemma_number_run_bound(c, i + 1);
}

proof fn lemma_number_run_bound(c: Seq<char>, i: int)
    requires
        0 <= i <= c.len(),
    ensures
        i <= number_run(c, i).0 <= c.len(),
    decreases c.len() - i,
{
    if i < c.len() {
        if is_digit(c[i]) || c[i] == '.' || (c[i] == '_' && i + 1 < c.len() && is_digit(c[i + 1])) {
            lemma_number_run_bound(c, i + 1);
        }
    }
}

proof fn lemma_name_end(c: Seq<char>, i: int)
    requires
        0 <= i <= c.len(),
    ensures
        i <= name_end(c, i) <= c.len(),
    decreases c.len() - i,
{
    if i < c.len() && (alnum_of(c[i]) || c[i] == '_') {
        lemma_name_end(c, i + 1);
    }
}

/// The number that starts at `i`: where it ends, and its text.
fn number_at(c: &Vec<char>, i: usize) -> (r: (usize, Vec<char>))
    requires
        i < c@.len(),
    ensures
        number_run(c@, i as int) == (r.0 as int, r.1@),
    decreases c@.len() - i,
{
    let n = c.len();
    if '0' <= c[i] && c[i] <= '9' || c[i] == '.' {
        if i + 1 < n {
            let (e, t) = number_at(c, i + 1);
            let mut out = vec![c[i]];
            push_all(&mut out, &t);
            assert(out@ =~= seq![c@[i as int]] + t@);
            (e, out)
        } else {
            let out = vec![c[i]];
            assert(number_run(c@, i + 1) == (n as int, Seq::<char>::empty()));
            assert(out@ =~= seq![c@[i as int]] + Seq::<char>::empty());
            (n, out)
        }
    } else if c[i] == '_' && i + 1 < n && '0' <= c[i + 1] && c[i + 1] <= '9' {
        number_at(c, i + 1)
    } else {
        (i, Vec::new())
    }
}

/// Whether digits and points make a number.
fn number_ok(t: &Vec<char>) -> (r: bool)
    ensures
        r == is_number(t@),
{
    let mut dots: usize = 0;
    let mut digit = false;
    let mut k: usize = 0;
    while k < t.len()
        invariant
            k <= t@.len(),
            dots == points(t@.take(k as int)),
            dots <= k,
            digit == exists|j: int| 0 <= j < k && is_digit(#[trigger] t@[j]),
        decreases t.len() - k,
    {
        assert(t@.take(k + 1).drop_last() =~= t@.take(k as int));
        if t[k] == '.' {
            dots = dots + 1;
        }
        if '0' <= t[k] && t[k] <= '9' {
            digit = true;
        }
        k = k + 1;
    }
    assert(t@.take(t@.len() as int) =~= t@);
    dots <= 1 && digit
}

/// The one-character token a character is, if it is one.
fn single_token(ch: char) -> (r: Option<Token>)
    ensures
        match r {
            Some(t) => single(ch) == Some(t@),
            None => single(ch) is None,
        },
{
    if ch == '+' || ch == '-' || ch == '*' || ch == '/' || ch == '%' || ch == '^' {
        Some(Token::Sign(ch))
    } else if ch == '\u{d7}' {
        Some(Token::Sign('*'))
    } else if ch == '\u{f7}' {
        Some(Token::Sign('/'))
    } else if ch == '(' || ch == '[' {
        Some(Token::Open)
    } else if ch == ')' || ch == ']' {
        Some(Token::Close)
    } else if ch == ',' {
        Some(Token::Comma)
    } else {
        None
    }
}

/// Read an expression into tokens.
///
/// Whitespace is passed over. A number is digits and points, with an
/// underscore between digits allowed and dropped, and is refused when it has
/// two points or no digit; a name is a letter and the letters, digits and
/// underscores after it, in lowercase; `×` and `÷` are the other spellings of
/// `*` and `/`; square brackets are round ones. Anything else is refused, and
/// so is an expression with nothing in it.
pub fn scan(text: &str) -> (r: Result<Vec<Token>, String>)
    ensures
        match r {
            Ok(v) => scan_of(text@) == Ok::<Seq<TokenView>, Seq<char>>(token_views(v@)),
            Err(e) => scan_of(text@) == Err::<Seq<TokenView>, Seq<char>>(e@),
        },
{
    let c = chars_of(text);
    let n = c.len();
    let mut out: Vec<Token> = Vec::new();
    let mut i: usize = 0;
    while i < n
        invariant
            i <= n,
            n == c@.len(),
            c@ == text@,
            scan_from(c@, 0) == then(token_views(out@), scan_from(c@, i as int)),
        decreases n - i,
    {
        let ch = c[i];
        let ghost before = token_views(out@);
        if ws(ch) {
            i = i + 1;
        } else if '0' <= ch && ch <= '9' || ch == '.' {
            proof {
                lemma_number_run(c@, i as int);
            }
            let (e, t) = number_at(&c, i);
            if !number_ok(&t) {
                let mut msg = t;
                push_str(&mut msg, " is not a number");
                return Err(string_of(&msg));
            }
            out.push(Token::Number(string_of(&t)));
            assert(token_views(out@) =~= before + seq![TokenView::Number(t@)]);
            proof {
                lemma_then(before, seq![TokenView::Number(t@)], scan_from(c@, e as int));
            }
            i = e;
        } else if alphabetic(ch) {
            let mut e = i + 1;
            proof {
                lemma_name_end(c@, i + 1);
            }
            while e < n && (alphanumeric(c[e]) || c[e] == '_')
                invariant
                    i < e <= n,
                    n == c@.len(),
                    name_end(c@, i + 1) == name_end(c@, e as int),
                decreases n - e,
            {
                e = e + 1;
            }
            let word = slice(&c, i, e);
            let name = lower(&word);
            out.push(Token::Name(string_of(&name)));
            assert(token_views(out@) =~= before + seq![TokenView::Name(lower_of(c@.subrange(i as int, e as int)))]);
            proof {
                lemma_then(
                    before,
                    seq![TokenView::Name(lower_of(c@.subrange(i as int, e as int)))],
                    scan_from(c@, e as int),
                );
            }
            i = e;
        } else {
            match single_token(ch) {
                Some(t) => {
                    let ghost tv = t@;
                    out.push(t);
                    assert(token_views(out@) =~= before + seq![tv]);
                    proof {
                        lemma_then(before, seq![tv], scan_from(c@, i + 1));
                    }
                    i = i + 1;
                },
                None => {
                    let mut msg = vec![ch];
                    push_str(&mut msg, " is not something this can work out");
                    assert(msg@ =~= seq![ch] + " is not something this can work out"@);
                    return Err(string_of(&msg));
                },
            }
        }
    }
    if out.len() == 0 {
        return Err(String::from_str("there is nothing here to work out"));
    }
    Ok(out)
}


// ------------------------------------------------------------ the grammar

/// An expression read out of the tokens: `+ -` below `* / %` below a sign
/// in front below `^`, which binds to the right; numbers, the constants,
/// bracketed expressions and calls at the bottom. Where reading stopped on
/// something it could not read, what was read before it stands, and the
/// place it stopped is a `Broken` with what went wrong, so that working the
/// expression out in order meets the first trouble first.
#[derive(PartialEq, Debug)]
pub enum Expr {
    Number(String),
    /// `pi`, `e` or `tau`.
    Constant(String),
    Neg(Box<Expr>),
    /// One of `+ - * / % ^`, between two expressions.
    Bin(char, Box<Expr>, Box<Expr>),
    /// A name, its arguments, and whether the bracket after them was closed.
    Call(String, Box<Expr>, bool),
    /// An argument, then the rest of them.
    More(Box<Expr>, Box<Expr>),
    /// The end of the arguments.
    End,
    /// A bracketed expression whose bracket was never closed.
    Unclosed(Box<Expr>),
    /// Reading stopped here, and why.
    Broken(String),
}

/// An expression as values.
pub enum ExprView {
    Number(Seq<char>),
    Constant(Seq<char>),
    Neg(Box<ExprView>),
    Bin(char, Box<ExprView>, Box<ExprView>),
    Call(Seq<char>, Box<ExprView>, bool),
    More(Box<ExprView>, Box<ExprView>),
    End,
    Unclosed(Box<ExprView>),
    Broken(Seq<char>),
}

/// An expression as values.
pub open spec fn expr_view(e: Expr) -> ExprView
    decreases e,
{
    match e {
        Expr::Number(t) => ExprView::Number(t@),
        Expr::Constant(n) => ExprView::Constant(n@),
        Expr::Neg(x) => ExprView::Neg(Box::new(expr_view(*x))),
        Expr::Bin(c, l, r) => ExprView::Bin(c, Box::new(expr_view(*l)), Box::new(expr_view(*r))),
        Expr::Call(n, a, closed) => ExprView::Call(n@, Box::new(expr_view(*a)), closed),
        Expr::More(a, b) => ExprView::More(Box::new(expr_view(*a)), Box::new(expr_view(*b))),
        Expr::End => ExprView::End,
        Expr::Unclosed(x) => ExprView::Unclosed(Box::new(expr_view(*x))),
        Expr::Broken(why) => ExprView::Broken(why@),
    }
}

impl View for Expr {
    type V = ExprView;

    open spec fn view(&self) -> ExprView {
        expr_view(*self)
    }
}

/// The names that stand for a number rather than a function.
pub open spec fn is_constant(n: Seq<char>) -> bool {
    n == "pi"@ || n == "e"@ || n == "tau"@
}

/// Whether token `at` is the sign `c`.
pub open spec fn sign_at(ts: Seq<TokenView>, at: int, c: char) -> bool {
    0 <= at < ts.len() && ts[at] == TokenView::Sign(c)
}

/// A sum read from `at`: what was read, where reading got to, and whether
/// it went without trouble.
pub open spec fn expr_of(ts: Seq<TokenView>, at: int) -> (ExprView, int, bool)
    decreases ts.len() - at, 6int,
{
    let (l, p, ok) = term_of(ts, at);
    if !ok || p < at || p > ts.len() {
        (l, p, false)
    } else {
        expr_more(ts, p, l)
    }
}

/// More of a sum, after `left`: a `+` or `-` and another product, for as
/// long as there are.
pub open spec fn expr_more(ts: Seq<TokenView>, p: int, left: ExprView) -> (ExprView, int, bool)
    decreases ts.len() - p, 5int,
{
    if p >= 0 && (sign_at(ts, p, '+') || sign_at(ts, p, '-')) {
        let c = if sign_at(ts, p, '+') {
            '+'
        } else {
            '-'
        };
        let (r, q, ok) = term_of(ts, p + 1);
        let e = ExprView::Bin(c, Box::new(left), Box::new(r));
        if !ok || q <= p || q > ts.len() {
            (e, q, false)
        } else {
            expr_more(ts, q, e)
        }
    } else {
        (left, p, true)
    }
}

/// A product read from `at`.
pub open spec fn term_of(ts: Seq<TokenView>, at: int) -> (ExprView, int, bool)
    decreases ts.len() - at, 4int,
{
    let (l, p, ok) = unary_of(ts, at);
    if !ok || p < at || p > ts.len() {
        (l, p, false)
    } else {
        term_more(ts, p, l)
    }
}

/// More of a product, after `left`: a `*`, `/` or `%` and another factor,
/// for as long as there are.
pub open spec fn term_more(ts: Seq<TokenView>, p: int, left: ExprView) -> (ExprView, int, bool)
    decreases ts.len() - p, 3int,
{
    if p >= 0 && (sign_at(ts, p, '*') || sign_at(ts, p, '/') || sign_at(ts, p, '%')) {
        let c = if sign_at(ts, p, '*') {
            '*'
        } else if sign_at(ts, p, '/') {
            '/'
        } else {
            '%'
        };
        let (r, q, ok) = unary_of(ts, p + 1);
        let e = ExprView::Bin(c, Box::new(left), Box::new(r));
        if !ok || q <= p || q > ts.len() {
            (e, q, false)
        } else {
            term_more(ts, q, e)
        }
    } else {
        (left, p, true)
    }
}

/// A sign in front, and what it is the sign of: looser than the power, so
/// `-2^2` is minus four.
pub open spec fn unary_of(ts: Seq<TokenView>, at: int) -> (ExprView, int, bool)
    decreases ts.len() - at, 2int,
{
    if at >= 0 && sign_at(ts, at, '-') {
        let (x, p, ok) = unary_of(ts, at + 1);
        (ExprView::Neg(Box::new(x)), p, ok)
    } else if at >= 0 && sign_at(ts, at, '+') {
        unary_of(ts, at + 1)
    } else {
        power_of(ts, at)
    }
}

/// A power: to the right, so `2^3^2` is two to the ninth.
pub open spec fn power_of(ts: Seq<TokenView>, at: int) -> (ExprView, int, bool)
    decreases ts.len() - at, 1int,
{
    let (b, p, ok) = atom_of(ts, at);
    if !ok || p < at {
        (b, p, false)
    } else if sign_at(ts, p, '^') {
        let (x, q, ok2) = unary_of(ts, p + 1);
        (ExprView::Bin('^', Box::new(b), Box::new(x)), q, ok2)
    } else {
        (b, p, true)
    }
}

/// Arguments from `at`: an expression, and after a comma the rest.
pub open spec fn args_of(ts: Seq<TokenView>, at: int) -> (ExprView, int, bool)
    decreases ts.len() - at, 7int,
{
    let (a, q, ok) = expr_of(ts, at);
    if !ok || q < at {
        (ExprView::More(Box::new(a), Box::new(ExprView::End)), q, false)
    } else if 0 <= q < ts.len() && ts[q] == TokenView::Comma {
        let (rest, q2, ok2) = args_of(ts, q + 1);
        (ExprView::More(Box::new(a), Box::new(rest)), q2, ok2)
    } else {
        (ExprView::More(Box::new(a), Box::new(ExprView::End)), q, true)
    }
}

/// The bottom of the grammar: a number; a bracketed sum; a constant; a name
/// with its arguments in brackets, or none; else something is missing.
pub open spec fn atom_of(ts: Seq<TokenView>, at: int) -> (ExprView, int, bool)
    decreases ts.len() - at, 0int,
{
    if at < 0 || at >= ts.len() {
        (ExprView::Broken("something is missing here"@), at, false)
    } else {
        match ts[at] {
            TokenView::Number(t) => (ExprView::Number(t), at + 1, true),
            TokenView::Open => {
                let (x, p, ok) = expr_of(ts, at + 1);
                if !ok {
                    (x, p, false)
                } else if 0 <= p < ts.len() && ts[p] == TokenView::Close {
                    (x, p + 1, true)
                } else {
                    (ExprView::Unclosed(Box::new(x)), p, false)
                }
            },
            TokenView::Name(n) => if is_constant(n) {
                (ExprView::Constant(n), at + 1, true)
            } else if at + 1 < ts.len() && ts[at + 1] == TokenView::Open {
                let (args, q, ok) = if at + 2 < ts.len() && ts[at + 2] == TokenView::Close {
                    (ExprView::End, at + 2, true)
                } else {
                    args_of(ts, at + 2)
                };
                if !ok {
                    (ExprView::Call(n, Box::new(args), true), q, false)
                } else if 0 <= q < ts.len() && ts[q] == TokenView::Close {
                    (ExprView::Call(n, Box::new(args), true), q + 1, true)
                } else {
                    (ExprView::Call(n, Box::new(args), false), q, false)
                }
            } else {
                (ExprView::Call(n, Box::new(ExprView::End), true), at + 1, true)
            },
            _ => (ExprView::Broken("something is missing here"@), at, false),
        }
    }
}

/// The whole expression read from the first token: what was read, where
/// reading stopped, and whether it went without trouble.
pub open spec fn parse_of(ts: Seq<TokenView>) -> (ExprView, int, bool) {
    expr_of(ts, 0)
}

/// Whether token `at` is the sign `c`.
fn is_sign(ts: &[Token], at: usize, c: char) -> (r: bool)
    ensures
        r == sign_at(token_views(ts@), at as int, c),
        r ==> at < ts@.len(),
{
    if at >= ts.len() {
        return false;
    }
    match &ts[at] {
        Token::Sign(d) => *d == c,
        _ => false,
    }
}

/// Whether the name stands for a number.
fn constant_name(n: &String) -> (r: bool)
    ensures
        r == is_constant(n@),
{
    let v = chars_of(n.as_str());
    crate::strs::same(&v, &chars_of("pi")) || crate::strs::same(&v, &chars_of("e")) || crate::strs::same(
        &v,
        &chars_of("tau"),
    )
}

/// Whether token `at` is this kind of bracket or the comma.
fn is_open(ts: &[Token], at: usize) -> (r: bool)
    ensures
        r == (at < ts@.len() && token_views(ts@)[at as int] == TokenView::Open),
{
    at < ts.len() && match &ts[at] {
        Token::Open => true,
        _ => false,
    }
}

fn is_close(ts: &[Token], at: usize) -> (r: bool)
    ensures
        r == (at < ts@.len() && token_views(ts@)[at as int] == TokenView::Close),
{
    at < ts.len() && match &ts[at] {
        Token::Close => true,
        _ => false,
    }
}

fn is_comma(ts: &[Token], at: usize) -> (r: bool)
    ensures
        r == (at < ts@.len() && token_views(ts@)[at as int] == TokenView::Comma),
{
    at < ts.len() && match &ts[at] {
        Token::Comma => true,
        _ => false,
    }
}

fn expr_at(ts: &[Token], at: usize) -> (r: (Expr, usize, bool))
    requires
        at <= ts@.len(),
    ensures
        (r.0@, r.1 as int, r.2) == expr_of(token_views(ts@), at as int),
        at <= r.1 <= ts@.len(),
    decreases ts@.len() - at, 6int,
{
    let (l, p, ok) = term_at(ts, at);
    if !ok {
        return (l, p, false);
    }
    expr_more_at(ts, p, l)
}

fn expr_more_at(ts: &[Token], p: usize, left: Expr) -> (r: (Expr, usize, bool))
    requires
        p <= ts@.len(),
    ensures
        (r.0@, r.1 as int, r.2) == expr_more(token_views(ts@), p as int, left@),
        p <= r.1 <= ts@.len(),
    decreases ts@.len() - p, 5int,
{
    let _len: usize = ts.len();
    let plus = is_sign(ts, p, '+');
    if plus || is_sign(ts, p, '-') {
        let c = if plus {
            '+'
        } else {
            '-'
        };
        let (r, q, ok) = term_at(ts, p + 1);
        let e = Expr::Bin(c, Box::new(left), Box::new(r));
        if !ok {
            return (e, q, false);
        }
        expr_more_at(ts, q, e)
    } else {
        (left, p, true)
    }
}

fn term_at(ts: &[Token], at: usize) -> (r: (Expr, usize, bool))
    requires
        at <= ts@.len(),
    ensures
        (r.0@, r.1 as int, r.2) == term_of(token_views(ts@), at as int),
        at <= r.1 <= ts@.len(),
    decreases ts@.len() - at, 4int,
{
    let (l, p, ok) = unary_at(ts, at);
    if !ok {
        return (l, p, false);
    }
    term_more_at(ts, p, l)
}

fn term_more_at(ts: &[Token], p: usize, left: Expr) -> (r: (Expr, usize, bool))
    requires
        p <= ts@.len(),
    ensures
        (r.0@, r.1 as int, r.2) == term_more(token_views(ts@), p as int, left@),
        p <= r.1 <= ts@.len(),
    decreases ts@.len() - p, 3int,
{
    let _len: usize = ts.len();
    let times = is_sign(ts, p, '*');
    let over = is_sign(ts, p, '/');
    if times || over || is_sign(ts, p, '%') {
        let c = if times {
            '*'
        } else if over {
            '/'
        } else {
            '%'
        };
        let (r, q, ok) = unary_at(ts, p + 1);
        let e = Expr::Bin(c, Box::new(left), Box::new(r));
        if !ok {
            return (e, q, false);
        }
        term_more_at(ts, q, e)
    } else {
        (left, p, true)
    }
}

fn unary_at(ts: &[Token], at: usize) -> (r: (Expr, usize, bool))
    requires
        at <= ts@.len(),
    ensures
        (r.0@, r.1 as int, r.2) == unary_of(token_views(ts@), at as int),
        at <= r.1 <= ts@.len(),
    decreases ts@.len() - at, 2int,
{
    let _len: usize = ts.len();
    if is_sign(ts, at, '-') {
        let (x, p, ok) = unary_at(ts, at + 1);
        (Expr::Neg(Box::new(x)), p, ok)
    } else if is_sign(ts, at, '+') {
        unary_at(ts, at + 1)
    } else {
        power_at(ts, at)
    }
}

fn power_at(ts: &[Token], at: usize) -> (r: (Expr, usize, bool))
    requires
        at <= ts@.len(),
    ensures
        (r.0@, r.1 as int, r.2) == power_of(token_views(ts@), at as int),
        at <= r.1 <= ts@.len(),
    decreases ts@.len() - at, 1int,
{
    let _len: usize = ts.len();
    let (b, p, ok) = atom_at(ts, at);
    if !ok {
        return (b, p, false);
    }
    if is_sign(ts, p, '^') {
        let (x, q, ok2) = unary_at(ts, p + 1);
        (Expr::Bin('^', Box::new(b), Box::new(x)), q, ok2)
    } else {
        (b, p, true)
    }
}

fn args_at(ts: &[Token], at: usize) -> (r: (Expr, usize, bool))
    requires
        at <= ts@.len(),
    ensures
        (r.0@, r.1 as int, r.2) == args_of(token_views(ts@), at as int),
        at <= r.1 <= ts@.len(),
    decreases ts@.len() - at, 7int,
{
    let _len: usize = ts.len();
    let (a, q, ok) = expr_at(ts, at);
    assert(expr_view(Expr::End) == ExprView::End);
    if !ok {
        return (Expr::More(Box::new(a), Box::new(Expr::End)), q, false);
    }
    if is_comma(ts, q) {
        let (rest, q2, ok2) = args_at(ts, q + 1);
        (Expr::More(Box::new(a), Box::new(rest)), q2, ok2)
    } else {
        (Expr::More(Box::new(a), Box::new(Expr::End)), q, true)
    }
}

fn atom_at(ts: &[Token], at: usize) -> (r: (Expr, usize, bool))
    requires
        at <= ts@.len(),
    ensures
        (r.0@, r.1 as int, r.2) == atom_of(token_views(ts@), at as int),
        at <= r.1 <= ts@.len(),
    decreases ts@.len() - at, 0int,
{
    if at >= ts.len() {
        return (Expr::Broken(String::from_str("something is missing here")), at, false);
    }
    let ghost tv = token_views(ts@);
    assert(tv[at as int] == ts@[at as int]@);
    assert(expr_view(Expr::End) == ExprView::End);
    match &ts[at] {
        Token::Number(t) => (Expr::Number(t.clone()), at + 1, true),
        Token::Open => {
            let (x, p, ok) = expr_at(ts, at + 1);
            if !ok {
                (x, p, false)
            } else if is_close(ts, p) {
                (x, p + 1, true)
            } else {
                (Expr::Unclosed(Box::new(x)), p, false)
            }
        },
        Token::Name(n) => {
            if constant_name(n) {
                (Expr::Constant(n.clone()), at + 1, true)
            } else if is_open(ts, at + 1) {
                let (args, q, ok) = if is_close(ts, at + 2) {
                    (Expr::End, at + 2, true)
                } else {
                    args_at(ts, at + 2)
                };
                if !ok {
                    (Expr::Call(n.clone(), Box::new(args), true), q, false)
                } else if is_close(ts, q) {
                    (Expr::Call(n.clone(), Box::new(args), true), q + 1, true)
                } else {
                    (Expr::Call(n.clone(), Box::new(args), false), q, false)
                }
            } else {
                (Expr::Call(n.clone(), Box::new(Expr::End), true), at + 1, true)
            }
        },
        _ => (Expr::Broken(String::from_str("something is missing here")), at, false),
    }
}

/// Read the tokens as an expression: what was read, how many tokens it
/// took, and whether it went without trouble. Where it did not, the place
/// it stopped is a `Broken` in what was read, or a bracket or a call left
/// open.
pub fn parse_expr(ts: &[Token]) -> (r: (Expr, usize, bool))
    ensures
        (r.0@, r.1 as int, r.2) == parse_of(token_views(ts@)),
        r.1 <= ts@.len(),
{
    expr_at(ts, 0)
}
/// Whether a sign joins products.
pub open spec fn is_product_sign(c: char) -> bool {
    c == '*' || c == '/' || c == '%'
}

/// Whether a sign joins sums.
pub open spec fn is_sum_sign(c: char) -> bool {
    c == '+' || c == '-'
}

/// Three numbers with two signs between them.
pub open spec fn three(a: Seq<char>, o1: char, b: Seq<char>, o2: char, c: Seq<char>) -> Seq<TokenView> {
    seq![
        TokenView::Number(a),
        TokenView::Sign(o1),
        TokenView::Number(b),
        TokenView::Sign(o2),
        TokenView::Number(c),
    ]
}

/// A number as read.
pub open spec fn num(a: Seq<char>) -> ExprView {
    ExprView::Number(a)
}

/// `a o b`, as read.
pub open spec fn bin(o: char, l: ExprView, r: ExprView) -> ExprView {
    ExprView::Bin(o, Box::new(l), Box::new(r))
}

/// Products and quotients are read left to right, and so are sums and
/// differences: `a o1 b o2 c` is `(a o1 b) o2 c` when both signs are of
/// the same kind.
pub proof fn law_same_signs_read_left_to_right(a: Seq<char>, o1: char, b: Seq<char>, o2: char, c: Seq<char>)
    requires
        (is_product_sign(o1) && is_product_sign(o2)) || (is_sum_sign(o1) && is_sum_sign(o2)),
    ensures
        parse_of(three(a, o1, b, o2, c)) == (bin(o2, bin(o1, num(a), num(b)), num(c)), 5int, true),
{
    let ts = three(a, o1, b, o2, c);
    reveal_with_fuel(term_more, 3);
    reveal_with_fuel(expr_more, 3);
    assert(ts[0] == TokenView::Number(a));
    assert(ts[1] == TokenView::Sign(o1));
    assert(ts[2] == TokenView::Number(b));
    assert(ts[3] == TokenView::Sign(o2));
    assert(ts[4] == TokenView::Number(c));
    assert(atom_of(ts, 0) == (num(a), 1int, true));
    assert(!sign_at(ts, 0, '-') && !sign_at(ts, 0, '+') && !sign_at(ts, 1, '^'));
    assert(power_of(ts, 0) == (num(a), 1int, true));
    assert(unary_of(ts, 0) == (num(a), 1int, true));
    assert(atom_of(ts, 2) == (num(b), 3int, true));
    assert(!sign_at(ts, 2, '-') && !sign_at(ts, 2, '+') && !sign_at(ts, 3, '^'));
    assert(power_of(ts, 2) == (num(b), 3int, true));
    assert(unary_of(ts, 2) == (num(b), 3int, true));
    assert(atom_of(ts, 4) == (num(c), 5int, true));
    assert(!sign_at(ts, 4, '-') && !sign_at(ts, 4, '+') && !sign_at(ts, 5, '^'));
    assert(power_of(ts, 4) == (num(c), 5int, true));
    assert(unary_of(ts, 4) == (num(c), 5int, true));
}

/// A product binds tighter than a sum on either side of it: `a + b * c` is
/// `a + (b * c)`, and `a * b + c` is `(a * b) + c`.
pub proof fn law_products_bind_tighter_than_sums(a: Seq<char>, o1: char, b: Seq<char>, o2: char, c: Seq<char>)
    requires
        (is_sum_sign(o1) && is_product_sign(o2)) || (is_product_sign(o1) && is_sum_sign(o2)),
    ensures
        is_sum_sign(o1) ==> parse_of(three(a, o1, b, o2, c)) == (bin(o1, num(a), bin(o2, num(b), num(c))), 5int, true),
        is_sum_sign(o2) ==> parse_of(three(a, o1, b, o2, c)) == (bin(o2, bin(o1, num(a), num(b)), num(c)), 5int, true),
{
    let ts = three(a, o1, b, o2, c);
    reveal_with_fuel(term_more, 3);
    reveal_with_fuel(expr_more, 3);
    assert(ts[0] == TokenView::Number(a));
    assert(ts[1] == TokenView::Sign(o1));
    assert(ts[2] == TokenView::Number(b));
    assert(ts[3] == TokenView::Sign(o2));
    assert(ts[4] == TokenView::Number(c));
    assert(atom_of(ts, 0) == (num(a), 1int, true));
    assert(!sign_at(ts, 0, '-') && !sign_at(ts, 0, '+') && !sign_at(ts, 1, '^'));
    assert(power_of(ts, 0) == (num(a), 1int, true));
    assert(unary_of(ts, 0) == (num(a), 1int, true));
    assert(atom_of(ts, 2) == (num(b), 3int, true));
    assert(!sign_at(ts, 2, '-') && !sign_at(ts, 2, '+') && !sign_at(ts, 3, '^'));
    assert(power_of(ts, 2) == (num(b), 3int, true));
    assert(unary_of(ts, 2) == (num(b), 3int, true));
    assert(atom_of(ts, 4) == (num(c), 5int, true));
    assert(!sign_at(ts, 4, '-') && !sign_at(ts, 4, '+') && !sign_at(ts, 5, '^'));
    assert(power_of(ts, 4) == (num(c), 5int, true));
    assert(unary_of(ts, 4) == (num(c), 5int, true));
}

/// Powers are read right to left: `a ^ b ^ c` is `a ^ (b ^ c)`.
pub proof fn law_powers_read_right_to_left(a: Seq<char>, b: Seq<char>, c: Seq<char>)
    ensures
        parse_of(three(a, '^', b, '^', c)) == (bin('^', num(a), bin('^', num(b), num(c))), 5int, true),
{
    let ts = three(a, '^', b, '^', c);
    assert(ts[0] == TokenView::Number(a));
    assert(ts[1] == TokenView::Sign('^'));
    assert(ts[2] == TokenView::Number(b));
    assert(ts[3] == TokenView::Sign('^'));
    assert(ts[4] == TokenView::Number(c));
    assert(atom_of(ts, 4) == (num(c), 5int, true));
    assert(!sign_at(ts, 4, '-') && !sign_at(ts, 4, '+') && !sign_at(ts, 5, '^'));
    assert(power_of(ts, 4) == (num(c), 5int, true));
    assert(unary_of(ts, 4) == (num(c), 5int, true));
    assert(atom_of(ts, 2) == (num(b), 3int, true));
    assert(power_of(ts, 2) == (bin('^', num(b), num(c)), 5int, true));
    assert(unary_of(ts, 2) == (bin('^', num(b), num(c)), 5int, true));
    assert(atom_of(ts, 0) == (num(a), 1int, true));
    assert(power_of(ts, 0) == (bin('^', num(a), bin('^', num(b), num(c))), 5int, true));
    assert(unary_of(ts, 0) == power_of(ts, 0));
}

/// A sign in front is looser than a power: `-a ^ b` is `-(a ^ b)`.
pub proof fn law_a_minus_in_front_is_looser_than_a_power(a: Seq<char>, b: Seq<char>)
    ensures
        parse_of(seq![TokenView::Sign('-'), TokenView::Number(a), TokenView::Sign('^'), TokenView::Number(b)])
            == (ExprView::Neg(Box::new(bin('^', num(a), num(b)))), 4int, true),
{
    let ts = seq![TokenView::Sign('-'), TokenView::Number(a), TokenView::Sign('^'), TokenView::Number(b)];
    assert(ts[0] == TokenView::Sign('-'));
    assert(ts[1] == TokenView::Number(a));
    assert(ts[2] == TokenView::Sign('^'));
    assert(ts[3] == TokenView::Number(b));
    assert(atom_of(ts, 3) == (num(b), 4int, true));
    assert(!sign_at(ts, 3, '-') && !sign_at(ts, 3, '+') && !sign_at(ts, 4, '^'));
    assert(power_of(ts, 3) == (num(b), 4int, true));
    assert(unary_of(ts, 3) == (num(b), 4int, true));
    assert(atom_of(ts, 1) == (num(a), 2int, true));
    assert(!sign_at(ts, 1, '-') && !sign_at(ts, 1, '+'));
    assert(power_of(ts, 1) == (bin('^', num(a), num(b)), 4int, true));
    assert(unary_of(ts, 1) == (bin('^', num(a), num(b)), 4int, true));
    assert(sign_at(ts, 0, '-'));
    assert(unary_of(ts, 0) == (ExprView::Neg(Box::new(bin('^', num(a), num(b)))), 4int, true));
    assert(!sign_at(ts, 4, '*') && !sign_at(ts, 4, '/') && !sign_at(ts, 4, '%'));
    assert(!sign_at(ts, 4, '+') && !sign_at(ts, 4, '-'));
}

} // verus!
