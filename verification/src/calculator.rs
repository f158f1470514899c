//! Syntax of calculator expressions: `+ - * / % ^`, unary signs,
//! parentheses and decimal numbers. The numeric evaluation, in floating
//! point, is done by the caller on the tree this module returns.
use vstd::prelude::*;

use crate::text::{chars_of, string_from_chars, trim, trim_chars, trim_end, trim_start};

verus! {

/// A binary operator.
#[derive(Clone, Copy, PartialEq, Eq, Structural, Debug)]
pub enum BinOp {
    Add,
    Subtract,
    Multiply,
    Divide,
    Remainder,
    Power,
}

/// A parsed calculator expression.
#[derive(Debug, PartialEq, Eq)]
pub enum Expr {
    /// A decimal literal: digits with at most one `.`, at least one digit.
    Number(String),
    /// Unary minus.
    Negate(Box<Expr>),
    /// A binary operation.
    Binary(BinOp, Box<Expr>, Box<Expr>),
}

/// A parsed calculator expression, as plain values.
pub enum ExprView {
    Number(Seq<char>),
    Negate(Box<ExprView>),
    Binary(BinOp, Box<ExprView>, Box<ExprView>),
}

impl View for Expr {
    type V = ExprView;

    open spec fn view(&self) -> ExprView
        decreases self,
    {
        match self {
            Expr::Number(text) => ExprView::Number(text@),
            Expr::Negate(inner) => ExprView::Negate(Box::new((**inner).view())),
            Expr::Binary(op, lhs, rhs) => ExprView::Binary(
                *op,
                Box::new((**lhs).view()),
                Box::new((**rhs).view()),
            ),
        }
    }
}

/// ASCII white space as `u8::is_ascii_whitespace` defines it.
pub open spec fn is_ascii_space(c: char) -> bool {
    c == ' ' || c == '\t' || c == '\n' || c == '\x0C' || c == '\r'
}

/// An ASCII decimal digit.
pub open spec fn is_ascii_digit(c: char) -> bool {
    '0' <= c && c <= '9'
}

/// The first position at or after `p` that does not hold ASCII white space.
pub open spec fn skip_space(s: Seq<char>, p: nat) -> nat
    decreases s.len() - p,
{
    if p < s.len() && is_ascii_space(s[p as int]) {
        skip_space(s, p + 1)
    } else {
        p
    }
}

/// Where a number that starts at `p` ends: digits, and one `.` unless
/// `dot_seen`.
pub open spec fn number_end(s: Seq<char>, p: nat, dot_seen: bool) -> nat
    decreases s.len() - p,
{
    if p < s.len() && is_ascii_digit(s[p as int]) {
        number_end(s, p + 1, dot_seen)
    } else if p < s.len() && s[p as int] == '.' && !dot_seen {
        number_end(s, p + 1, true)
    } else {
        p
    }
}

/// The text holds an ASCII digit.
pub open spec fn has_ascii_digit(s: Seq<char>) -> bool {
    exists|i: int| 0 <= i < s.len() && is_ascii_digit(#[trigger] s[i])
}

/// A parse result: the tree and the position after it.
pub type ParseResult = Option<(ExprView, nat)>;

/// number := digits with at most one `.`, holding at least one digit.
pub open spec fn parse_number(s: Seq<char>, p: nat) -> ParseResult {
    let q = skip_space(s, p);
    let e = number_end(s, q, false);
    let token = s.subrange(q as int, e as int);
    if e > q && has_ascii_digit(token) {
        Some((ExprView::Number(token), e))
    } else {
        None
    }
}

/// The operator that `c` stands for between two terms of a sum.
pub open spec fn sum_op(c: char) -> Option<BinOp> {
    if c == '+' {
        Some(BinOp::Add)
    } else if c == '-' {
        Some(BinOp::Subtract)
    } else {
        None
    }
}

/// The operator that `c` stands for between two factors of a product.
pub open spec fn product_op(c: char) -> Option<BinOp> {
    if c == '*' {
        Some(BinOp::Multiply)
    } else if c == '/' {
        Some(BinOp::Divide)
    } else if c == '%' {
        Some(BinOp::Remainder)
    } else {
        None
    }
}

/// expression := term (('+' | '-') term)*, left associative.
pub open spec fn parse_expression(s: Seq<char>, p: nat) -> ParseResult
    decreases s.len() - p, 9nat,
{
    match parse_term(s, p) {
        Some((lhs, r)) => if p <= r <= s.len() {
            sum_rest(s, r, lhs)
        } else {
            None
        },
        None => None,
    }
}

/// The rest of a sum after `lhs`, which ends at `p`.
pub open spec fn sum_rest(s: Seq<char>, p: nat, lhs: ExprView) -> ParseResult
    decreases s.len() - p, 7nat,
{
    let q = skip_space(s, p);
    if p <= q < s.len() && sum_op(s[q as int]) is Some {
        match parse_term(s, q + 1) {
            Some((rhs, r)) => if q + 1 <= r <= s.len() {
                sum_rest(
                    s,
                    r,
                    ExprView::Binary(sum_op(s[q as int])->0, Box::new(lhs), Box::new(rhs)),
                )
            } else {
                None
            },
            None => None,
        }
    } else {
        Some((lhs, q))
    }
}

/// term := power (('*' | '/' | '%') power)*, left associative.
pub open spec fn parse_term(s: Seq<char>, p: nat) -> ParseResult
    decreases s.len() - p, 8nat,
{
    match parse_power(s, p) {
        Some((lhs, r)) => if p <= r <= s.len() {
            product_rest(s, r, lhs)
        } else {
            None
        },
        None => None,
    }
}

/// The rest of a product after `lhs`, which ends at `p`.
pub open spec fn product_rest(s: Seq<char>, p: nat, lhs: ExprView) -> ParseResult
    decreases s.len() - p, 5nat,
{
    let q = skip_space(s, p);
    if p <= q < s.len() && product_op(s[q as int]) is Some {
        match parse_power(s, q + 1) {
            Some((rhs, r)) => if q + 1 <= r <= s.len() {
                product_rest(
                    s,
                    r,
                    ExprView::Binary(product_op(s[q as int])->0, Box::new(lhs), Box::new(rhs)),
                )
            } else {
                None
            },
            None => None,
        }
    } else {
        Some((lhs, q))
    }
}

/// power := unary ('^' power)?, right associative.
pub open spec fn parse_power(s: Seq<char>, p: nat) -> ParseResult
    decreases s.len() - p, 6nat,
{
    match parse_unary(s, p) {
        Some((base, r)) => {
            let q = skip_space(s, r);
            if p <= r <= q < s.len() && s[q as int] == '^' {
                match parse_power(s, q + 1) {
                    Some((exponent, r2)) => Some(
                        (ExprView::Binary(BinOp::Power, Box::new(base), Box::new(exponent)), r2),
                    ),
                    None => None,
                }
            } else {
                Some((base, q))
            }
        },
        None => None,
    }
}

/// unary := ('+' | '-') unary | primary.
pub open spec fn parse_unary(s: Seq<char>, p: nat) -> ParseResult
    decreases s.len() - p, 4nat,
{
    let q = skip_space(s, p);
    if p <= q < s.len() && s[q as int] == '+' {
        parse_unary(s, q + 1)
    } else if p <= q < s.len() && s[q as int] == '-' {
        match parse_unary(s, q + 1) {
            Some((inner, r)) => Some((ExprView::Negate(Box::new(inner)), r)),
            None => None,
        }
    } else if p <= q <= s.len() {
        parse_primary(s, q)
    } else {
        None
    }
}

/// primary := '(' expression ')' | number.
pub open spec fn parse_primary(s: Seq<char>, p: nat) -> ParseResult
    decreases s.len() - p, 3nat,
{
    let q = skip_space(s, p);
    if p <= q < s.len() && s[q as int] == '(' {
        match parse_expression(s, q + 1) {
            Some((inner, r)) => {
                let close = skip_space(s, r);
                if close < s.len() && s[close as int] == ')' {
                    Some((inner, close + 1))
                } else {
                    None
                }
            },
            None => None,
        }
    } else {
        parse_number(s, q)
    }
}

/// The tree of a calculation: the trimmed text must hold a digit and be one
/// whole expression, up to trailing ASCII white space.
pub open spec fn calculation(text: Seq<char>) -> Option<ExprView> {
    let t = trim(text);
    if t.len() == 0 || !has_ascii_digit(t) {
        None
    } else {
        match parse_expression(t, 0) {
            Some((e, r)) => if skip_space(t, r) == t.len() {
                Some(e)
            } else {
                None
            },
            None => None,
        }
    }
}

/// The view of an executable parse result.
pub open spec fn result_view(res: Option<(Expr, usize)>) -> ParseResult {
    match res {
        Some((e, r)) => Some((e@, r as nat)),
        None => None,
    }
}

/// The position of `result_view(res)`, where there is one, lies in
/// `[p, len]`.
pub open spec fn advances(res: Option<(Expr, usize)>, p: nat, len: nat) -> bool {
    res matches Some((_, r)) ==> p <= r <= len
}

fn is_space_char(c: char) -> (res: bool)
    ensures
        res == is_ascii_space(c),
{
    c == ' ' || c == '\t' || c == '\n' || c == '\x0C' || c == '\r'
}

fn is_digit_char(c: char) -> (res: bool)
    ensures
        res == is_ascii_digit(c),
{
    '0' <= c && c <= '9'
}

fn skip_space_at(s: &[char], p: usize) -> (q: usize)
    requires
        p <= s@.len(),
    ensures
        q == skip_space(s@, p as nat),
        p <= q <= s@.len(),
    decreases s@.len() - p,
{
    if p < s.len() && is_space_char(s[p]) {
        skip_space_at(s, p + 1)
    } else {
        p
    }
}

fn number_end_at(s: &[char], p: usize, dot_seen: bool) -> (e: usize)
    requires
        p <= s@.len(),
    ensures
        e == number_end(s@, p as nat, dot_seen),
        p <= e <= s@.len(),
    decreases s@.len() - p,
{
    if p < s.len() && is_digit_char(s[p]) {
        number_end_at(s, p + 1, dot_seen)
    } else if p < s.len() && s[p] == '.' && !dot_seen {
        number_end_at(s, p + 1, true)
    } else {
        p
    }
}

/// Whether `s` holds an ASCII digit.
fn contains_ascii_digit(s: &[char]) -> (res: bool)
    ensures
        res == has_ascii_digit(s@),
{
    let mut i: usize = 0;
    while i < s.len()
        invariant
            i <= s@.len(),
            forall|k: int| 0 <= k < i ==> !is_ascii_digit(#[trigger] s@[k]),
        decreases s@.len() - i,
    {
        if is_digit_char(s[i]) {
            return true;
        }
        i = i + 1;
    }
    false
}

fn copy_range(s: &[char], from: usize, to: usize) -> (res: Vec<char>)
    requires
        from <= to <= s@.len(),
    ensures
        res@ == s@.subrange(from as int, to as int),
{
    let mut res: Vec<char> = Vec::new();
    let mut i: usize = from;
    while i < to
        invariant
            from <= i <= to <= s@.len(),
            res@ == s@.subrange(from as int, i as int),
        decreases to - i,
    {
        res.push(s[i]);
        i = i + 1;
        proof {
            assert(res@ =~= s@.subrange(from as int, i as int));
        }
    }
    res
}

fn number_at(s: &[char], p: usize) -> (res: Option<(Expr, usize)>)
    requires
        p <= s@.len(),
    ensures
        result_view(res) == parse_number(s@, p as nat),
        advances(res, p as nat, s@.len()),
{
    let q = skip_space_at(s, p);
    let e = number_end_at(s, q, false);
    if e > q {
        let token = copy_range(s, q, e);
        if contains_ascii_digit(token.as_slice()) {
            let text = string_from_chars(token.as_slice());
            return Some((Expr::Number(text), e));
        }
    }
    None
}

fn sum_op_of(c: char) -> (res: Option<BinOp>)
    ensures
        res == sum_op(c),
{
    if c == '+' {
        Some(BinOp::Add)
    } else if c == '-' {
        Some(BinOp::Subtract)
    } else {
        None
    }
}

fn product_op_of(c: char) -> (res: Option<BinOp>)
    ensures
        res == product_op(c),
{
    if c == '*' {
        Some(BinOp::Multiply)
    } else if c == '/' {
        Some(BinOp::Divide)
    } else if c == '%' {
        Some(BinOp::Remainder)
    } else {
        None
    }
}

fn expression_at(s: &[char], p: usize) -> (res: Option<(Expr, usize)>)
    requires
        p <= s@.len(),
    ensures
        result_view(res) == parse_expression(s@, p as nat),
        advances(res, p as nat, s@.len()),
    decreases s@.len() - p, 9nat,
{
    let (mut lhs, mut pos) = match term_at(s, p) {
        Some(found) => found,
        None => return None,
    };
    loop
        invariant
            p <= pos <= s@.len(),
            sum_rest(s@, pos as nat, lhs@) == parse_expression(s@, p as nat),
        decreases s@.len() - pos,
    {
        let q = skip_space_at(s, pos);
        let op = if q < s.len() {
            sum_op_of(s[q])
        } else {
            None
        };
        match op {
            Some(op) => {
                match term_at(s, q + 1) {
                    Some((rhs, r)) => {
                        lhs = Expr::Binary(op, Box::new(lhs), Box::new(rhs));
                        pos = r;
                    },
                    None => return None,
                }
            },
            None => return Some((lhs, q)),
        }
    }
}

fn term_at(s: &[char], p: usize) -> (res: Option<(Expr, usize)>)
    requires
        p <= s@.len(),
    ensures
        result_view(res) == parse_term(s@, p as nat),
        advances(res, p as nat, s@.len()),
    decreases s@.len() - p, 8nat,
{
    let (mut lhs, mut pos) = match power_at(s, p) {
        Some(found) => found,
        None => return None,
    };
    loop
        invariant
            p <= pos <= s@.len(),
            product_rest(s@, pos as nat, lhs@) == parse_term(s@, p as nat),
        decreases s@.len() - pos,
    {
        let q = skip_space_at(s, pos);
        let op = if q < s.len() {
            product_op_of(s[q])
        } else {
            None
        };
        match op {
            Some(op) => {
                match power_at(s, q + 1) {
                    Some((rhs, r)) => {
                        lhs = Expr::Binary(op, Box::new(lhs), Box::new(rhs));
                        pos = r;
                    },
                    None => return None,
                }
            },
            None => return Some((lhs, q)),
        }
    }
}

fn power_at(s: &[char], p: usize) -> (res: Option<(Expr, usize)>)
    requires
        p <= s@.len(),
    ensures
        result_view(res) == parse_power(s@, p as nat),
        advances(res, p as nat, s@.len()),
    decreases s@.len() - p, 6nat,
{
    match unary_at(s, p) {
        Some((base, r)) => {
            let q = skip_space_at(s, r);
            if q < s.len() && s[q] == '^' {
                match power_at(s, q + 1) {
                    Some((exponent, r2)) => Some(
                        (Expr::Binary(BinOp::Power, Box::new(base), Box::new(exponent)), r2),
                    ),
                    None => None,
                }
            } else {
                Some((base, q))
            }
        },
        None => None,
    }
}

fn unary_at(s: &[char], p: usize) -> (res: Option<(Expr, usize)>)
    requires
        p <= s@.len(),
    ensures
        result_view(res) == parse_unary(s@, p as nat),
        advances(res, p as nat, s@.len()),
    decreases s@.len() - p, 4nat,
{
    let q = skip_space_at(s, p);
    if q < s.len() && s[q] == '+' {
        unary_at(s, q + 1)
    } else if q < s.len() && s[q] == '-' {
        match unary_at(s, q + 1) {
            Some((inner, r)) => Some((Expr::Negate(Box::new(inner)), r)),
            None => None,
        }
    } else {
        primary_at(s, q)
    }
}

fn primary_at(s: &[char], p: usize) -> (res: Option<(Expr, usize)>)
    requires
        p <= s@.len(),
    ensures
        result_view(res) == parse_primary(s@, p as nat),
        advances(res, p as nat, s@.len()),
    decreases s@.len() - p, 3nat,
{
    let q = skip_space_at(s, p);
    if q < s.len() && s[q] == '(' {
        match expression_at(s, q + 1) {
            Some((inner, r)) => {
                let close = skip_space_at(s, r);
                if close < s.len() && s[close] == ')' {
                    Some((inner, close + 1))
                } else {
                    None
                }
            },
            None => None,
        }
    } else {
        number_at(s, q)
    }
}

/// Parses a calculator expression: `None` unless the trimmed text holds an
/// ASCII digit and is one whole expression (see `calculation`).
pub fn parse_calculation(expression: &str) -> (res: Option<Expr>)
    ensures
        res matches Some(e) ==> calculation(expression@) == Some(e@),
        res is None ==> calculation(expression@) is None,
{
    let chars = chars_of(expression);
    let t = trim_chars(chars.as_slice());
    if t.len() == 0 || !contains_ascii_digit(t.as_slice()) {
        return None;
    }
    match expression_at(t.as_slice(), 0) {
        Some((e, r)) => {
            if skip_space_at(t.as_slice(), r) == t.len() {
                Some(e)
            } else {
                None
            }
        },
        None => None,
    }
}

/// Skipping white space stops at the first position from `p` on that holds
/// no ASCII white space (or at the end), having passed only white space.
pub proof fn lemma_skip_space_stops_at_first_non_space(s: Seq<char>, p: nat)
    requires
        p <= s.len(),
    ensures
        p <= skip_space(s, p) <= s.len(),
        forall|i: int| p <= i < skip_space(s, p) ==> is_ascii_space(#[trigger] s[i]),
        skip_space(s, p) < s.len() ==> !is_ascii_space(s[skip_space(s, p) as int]),
    decreases s.len() - p,
{
    if p < s.len() && is_ascii_space(s[p as int]) {
        lemma_skip_space_stops_at_first_non_space(s, p + 1);
    }
}

/// A decimal literal: ASCII digits and at most one `.`, with at least one
/// digit.
pub open spec fn is_decimal_literal(s: Seq<char>) -> bool {
    &&& forall|i: int| 0 <= i < s.len() ==> is_ascii_digit(#[trigger] s[i]) || s[i] == '.'
    &&& forall|i: int, j: int| 0 <= i < j < s.len() && #[trigger] s[i] == '.' ==> #[trigger] s[j] != '.'
    &&& has_ascii_digit(s)
}

/// A number token reaches as far as it can: it holds only digits and `.`,
/// with no `.` after one already seen, and it is followed neither by a
/// digit nor by a `.` that it could still take.
pub proof fn lemma_number_token_is_maximal(s: Seq<char>, p: nat, dot_seen: bool)
    requires
        p <= s.len(),
    ensures
        p <= number_end(s, p, dot_seen) <= s.len(),
        forall|i: int| p <= i < number_end(s, p, dot_seen) ==> is_ascii_digit(#[trigger] s[i]) || s[i] == '.',
        dot_seen ==> forall|i: int| p <= i < number_end(s, p, dot_seen) ==> #[trigger] s[i] != '.',
        forall|i: int, j: int| p <= i < j < number_end(s, p, dot_seen) && #[trigger] s[i] == '.' ==> #[trigger] s[j] != '.',
        number_end(s, p, dot_seen) < s.len() ==> !is_ascii_digit(s[number_end(s, p, dot_seen) as int]),
        number_end(s, p, dot_seen) < s.len() && s[number_end(s, p, dot_seen) as int] == '.' ==> (dot_seen || exists|i: int|
            p <= i < number_end(s, p, dot_seen) && #[trigger] s[i] == '.'),
    decreases s.len() - p,
{
    if p < s.len() && is_ascii_digit(s[p as int]) {
        lemma_number_token_is_maximal(s, p + 1, dot_seen);
    } else if p < s.len() && s[p as int] == '.' && !dot_seen {
        lemma_number_token_is_maximal(s, p + 1, true);
        let e = number_end(s, p, dot_seen);
        if e < s.len() && s[e as int] == '.' {
            assert(s[p as int] == '.');
        }
    }
}

proof fn lemma_literal_number_end(s: Seq<char>, p: nat, dot_seen: bool)
    requires
        p <= s.len(),
        forall|i: int| p <= i < s.len() ==> is_ascii_digit(#[trigger] s[i]) || s[i] == '.',
        dot_seen ==> forall|i: int| p <= i < s.len() ==> #[trigger] s[i] != '.',
        forall|i: int, j: int| p <= i < j < s.len() && #[trigger] s[i] == '.' ==> #[trigger] s[j] != '.',
    ensures
        number_end(s, p, dot_seen) == s.len(),
    decreases s.len() - p,
{
    if p < s.len() {
        if is_ascii_digit(s[p as int]) {
            lemma_literal_number_end(s, p + 1, dot_seen);
        } else {
            assert(s[p as int] == '.');
            assert forall|i: int| p + 1 <= i < s.len() implies #[trigger] s[i] != '.' by {
                assert(s[p as int] == '.');
            }
            lemma_literal_number_end(s, p + 1, true);
        }
    }
}

proof fn lemma_literal_is_trimmed(s: Seq<char>)
    requires
        s.len() > 0,
        forall|i: int| 0 <= i < s.len() ==> is_ascii_digit(#[trigger] s[i]) || s[i] == '.',
    ensures
        trim(s) == s,
{
    assert(!crate::text::unicode_white_space(s[0]));
    assert(trim_start(s) == s);
    assert(!crate::text::unicode_white_space(s.last()));
    assert(trim_end(s) == s);
}

/// A text that is a decimal literal is a calculation of just that number,
/// every digit of it included.
pub proof fn lemma_decimal_literal_is_a_number(s: Seq<char>)
    requires
        is_decimal_literal(s),
    ensures
        calculation(s) == Some(ExprView::Number(s)),
{
    lemma_literal_is_trimmed(s);
    lemma_literal_number_end(s, 0, false);
    assert(skip_space(s, 0) == 0);
    assert(skip_space(s, s.len()) == s.len());
    assert(s.subrange(0, s.len() as int) =~= s);
    assert(parse_number(s, 0) == Some((ExprView::Number(s), s.len())));
    assert(s[0] != '(' && s[0] != '+' && s[0] != '-');
    assert(parse_primary(s, 0) == Some((ExprView::Number(s), s.len())));
    assert(parse_unary(s, 0) == Some((ExprView::Number(s), s.len())));
    assert(parse_power(s, 0) == Some((ExprView::Number(s), s.len())));
    assert(product_rest(s, s.len(), ExprView::Number(s)) == Some((ExprView::Number(s), s.len())));
    assert(parse_term(s, 0) == Some((ExprView::Number(s), s.len())));
    assert(sum_rest(s, s.len(), ExprView::Number(s)) == Some((ExprView::Number(s), s.len())));
    assert(parse_expression(s, 0) == Some((ExprView::Number(s), s.len())));
}

} // verus!
