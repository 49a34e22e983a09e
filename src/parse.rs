//! The infix syntax of logic expressions.
//!
//! After whitespace is removed: `0` and `1` are leaves, `!E` negates, `(E)`
//! groups, and `E1 op E2` with `op` one of `&`, `|`, `^` and `$` (NAND) folds to
//! the left, all four with the same precedence. Text after a complete
//! expression is ignored.
use vstd::prelude::*;
use crate::logic::{AsLogic, LogicExpr};

verus! {

/// Why a text is not an expression.
#[derive(Debug, Clone, Copy, PartialEq, Eq, Structural)]
pub enum ParseError {
    /// A `(` group does not end with `)`.
    BracketNotClosed,
    /// An element starts with a character that cannot start one.
    InvalidElement,
    /// The text ends where an element should start.
    InvalidElementNone,
}

impl ParseError {
    pub open spec fn text(self) -> Seq<char> {
        match self {
            ParseError::BracketNotClosed => "bracket is not closed"@,
            ParseError::InvalidElement => "invalid element"@,
            ParseError::InvalidElementNone => "invalid element (none)"@,
        }
    }

    /// The message of the error.
    pub fn message(self) -> (r: &'static str)
        ensures
            r@ == self.text(),
    {
        match self {
            ParseError::BracketNotClosed => "bracket is not closed",
            ParseError::InvalidElement => "invalid element",
            ParseError::InvalidElementNone => "invalid element (none)",
        }
    }
}

impl AsLogic for bool {
    open spec fn truth(&self) -> bool {
        *self
    }

    fn logic_true() -> (r: bool) {
        true
    }

    fn logic_false() -> (r: bool) {
        false
    }

    proof fn lemma_clone_truth(a: bool, b: bool) {
    }
}

/// The expression with each leaf replaced by its truth value.
pub open spec fn leaves_of<R: AsLogic>(e: LogicExpr<R>) -> LogicExpr<bool>
    decreases e,
{
    match e {
        LogicExpr::Nand(a, b) => LogicExpr::Nand(Box::new(leaves_of(*a)), Box::new(leaves_of(*b))),
        LogicExpr::Not(a) => LogicExpr::Not(Box::new(leaves_of(*a))),
        LogicExpr::And(a, b) => LogicExpr::And(Box::new(leaves_of(*a)), Box::new(leaves_of(*b))),
        LogicExpr::Or(a, b) => LogicExpr::Or(Box::new(leaves_of(*a)), Box::new(leaves_of(*b))),
        LogicExpr::Xor(a, b) => LogicExpr::Xor(Box::new(leaves_of(*a)), Box::new(leaves_of(*b))),
        LogicExpr::Leaf(r) => LogicExpr::Leaf(r.truth()),
    }
}

/// Whether `c` is one of the four binary operators.
pub open spec fn is_operator(c: char) -> bool {
    c == '&' || c == '|' || c == '^' || c == '$'
}

/// The node that operator `c` builds from its left and right operands. A NAND
/// node keeps the left operand in its first slot.
pub open spec fn combine(c: char, lhs: LogicExpr<bool>, rhs: LogicExpr<bool>) -> LogicExpr<bool> {
    if c == '&' {
        LogicExpr::And(Box::new(lhs), Box::new(rhs))
    } else if c == '|' {
        LogicExpr::Or(Box::new(lhs), Box::new(rhs))
    } else if c == '^' {
        LogicExpr::Xor(Box::new(lhs), Box::new(rhs))
    } else {
        LogicExpr::Nand(Box::new(lhs), Box::new(rhs))
    }
}

/// An expression and the position just after it, or the reason for failure.
pub type Parsed = Result<(LogicExpr<bool>, int), ParseError>;

/// An element at `pos`: a literal or a bracketed expression.
pub open spec fn parse_elem(t: Seq<char>, pos: int) -> Parsed
    decreases t.len() - pos, 0int,
{
    if pos < 0 || pos >= t.len() {
        Err(ParseError::InvalidElementNone)
    } else if t[pos] == '0' {
        Ok((LogicExpr::Leaf(false), pos + 1))
    } else if t[pos] == '1' {
        Ok((LogicExpr::Leaf(true), pos + 1))
    } else if t[pos] == '(' {
        match parse_binary(t, pos + 1) {
            Ok((e, p)) => if 0 <= p < t.len() && t[p] == ')' {
                Ok((e, p + 1))
            } else {
                Err(ParseError::BracketNotClosed)
            },
            Err(k) => Err(k),
        }
    } else {
        Err(ParseError::InvalidElement)
    }
}

/// A unary expression at `pos`: any number of `!` before an element.
pub open spec fn parse_mono(t: Seq<char>, pos: int) -> Parsed
    decreases t.len() - pos, 1int,
{
    if 0 <= pos < t.len() && t[pos] == '!' {
        match parse_mono(t, pos + 1) {
            Ok((e, p)) => Ok((LogicExpr::Not(Box::new(e)), p)),
            Err(k) => Err(k),
        }
    } else {
        parse_elem(t, pos)
    }
}

/// The operators and operands that follow `lhs` from `pos` on, folded onto it.
pub open spec fn parse_rest(t: Seq<char>, lhs: LogicExpr<bool>, pos: int) -> Parsed
    decreases t.len() - pos, 2int,
{
    if 0 <= pos < t.len() && is_operator(t[pos]) {
        match parse_mono(t, pos + 1) {
            // a parsed operand always ends past its start
            Ok((rhs, p)) => if pos < p <= t.len() {
                parse_rest(t, combine(t[pos], lhs, rhs), p)
            } else {
                Ok((lhs, pos))
            },
            Err(k) => Err(k),
        }
    } else {
        Ok((lhs, pos))
    }
}

/// A binary expression at `pos`.
pub open spec fn parse_binary(t: Seq<char>, pos: int) -> Parsed
    decreases t.len() - pos, 3int,
{
    match parse_mono(t, pos) {
        Ok((e, p)) => if pos < p <= t.len() {
            parse_rest(t, e, p)
        } else {
            Ok((e, p))
        },
        Err(k) => Err(k),
    }
}

/// How an exec parse result matches the spec one.
pub open spec fn parsed_as<R: AsLogic>(r: Result<(Box<LogicExpr<R>>, usize), ParseError>, s: Parsed) -> bool {
    match r {
        Ok((e, p)) => s is Ok && leaves_of(*e) == s->Ok_0.0 && p as int == s->Ok_0.1,
        Err(k) => s == Err::<(LogicExpr<bool>, int), ParseError>(k),
    }
}

fn elem<R: AsLogic>(t: &[char], pos: usize) -> (r: Result<(Box<LogicExpr<R>>, usize), ParseError>)
    ensures
        parsed_as(r, parse_elem(t@, pos as int)),
        r is Ok ==> pos < r->Ok_0.1 <= t@.len(),
    decreases t@.len() - pos, 0int,
{
    if pos >= t.len() {
        return Err(ParseError::InvalidElementNone);
    }
    let c = t[pos];
    if c == '0' {
        Ok((Box::new(LogicExpr::Leaf(R::logic_false())), pos + 1))
    } else if c == '1' {
        Ok((Box::new(LogicExpr::Leaf(R::logic_true())), pos + 1))
    } else if c == '(' {
        match binary::<R>(t, pos + 1) {
            Ok((e, p)) => {
                if p < t.len() && t[p] == ')' {
                    Ok((e, p + 1))
                } else {
                    Err(ParseError::BracketNotClosed)
                }
            },
            Err(k) => Err(k),
        }
    } else {
        Err(ParseError::InvalidElement)
    }
}

fn mono<R: AsLogic>(t: &[char], pos: usize) -> (r: Result<(Box<LogicExpr<R>>, usize), ParseError>)
    ensures
        parsed_as(r, parse_mono(t@, pos as int)),
        r is Ok ==> pos < r->Ok_0.1 <= t@.len(),
    decreases t@.len() - pos, 1int,
{
    if pos < t.len() && t[pos] == '!' {
        match mono::<R>(t, pos + 1) {
            Ok((e, p)) => Ok((Box::new(LogicExpr::Not(e)), p)),
            Err(k) => Err(k),
        }
    } else {
        elem::<R>(t, pos)
    }
}

fn binary<R: AsLogic>(t: &[char], pos: usize) -> (r: Result<(Box<LogicExpr<R>>, usize), ParseError>)
    ensures
        parsed_as(r, parse_binary(t@, pos as int)),
        r is Ok ==> pos < r->Ok_0.1 <= t@.len(),
    decreases t@.len() - pos, 3int,
{
    let (mut lhs, mut p) = match mono::<R>(t, pos) {
        Ok(x) => x,
        Err(k) => return Err(k),
    };
    while p < t.len() && (t[p] == '&' || t[p] == '|' || t[p] == '^' || t[p] == '$')
        invariant
            pos < p <= t@.len(),
            parse_binary(t@, pos as int) == parse_rest(t@, leaves_of(*lhs), p as int),
        decreases t@.len() - p,
    {
        let op = t[p];
        let rhs = match mono::<R>(t, p + 1) {
            Ok((e, q)) => {
                p = q;
                e
            },
            Err(k) => return Err(k),
        };
        lhs = if op == '&' {
            Box::new(LogicExpr::And(lhs, rhs))
        } else if op == '|' {
            Box::new(LogicExpr::Or(lhs, rhs))
        } else if op == '^' {
            Box::new(LogicExpr::Xor(lhs, rhs))
        } else {
            Box::new(LogicExpr::Nand(lhs, rhs))
        };
    }
    Ok((lhs, p))
}

} // verus!

verus! {

/// Whether a character is whitespace, as `char::is_whitespace` decides.
pub uninterp spec fn is_space(c: char) -> bool;

/// Relies on `char::is_whitespace`: whether `c` has the Unicode White_Space
/// property, a fixed function of the character.
#[verifier::external_body]
fn is_whitespace(c: char) -> (r: bool)
    ensures
        r == is_space(c),
{
    c.is_whitespace()
}

/// The text with every whitespace character removed.
pub open spec fn stripped(s: Seq<char>) -> Seq<char> {
    s.filter(|c: char| !is_space(c))
}

/// The characters of `l` without whitespace.
pub fn strip_whitespace(l: &str) -> (r: Vec<char>)
    ensures
        r@ == stripped(l@),
{
    let mut out: Vec<char> = Vec::new();
    for c in it: l.chars()
        invariant
            it.seq() == l@,
            out@ == stripped(l@.take(it.index() as int)),
    {
        proof {
            let before = l@.take(it.index() as int);
            assert(l@.take(it.index() as int + 1) == before.push(c));
            before.lemma_filter_push(c, |c: char| !is_space(c));
        }
        if !is_whitespace(c) {
            out.push(c);
        }
    }
    proof {
        assert(l@.take(l@.len() as int) == l@);
    }
    out
}

/// Parses a text that holds no whitespace. Characters after the first complete
/// expression are ignored.
pub fn parse_chars<R: AsLogic>(t: &[char]) -> (r: Result<LogicExpr<R>, ParseError>)
    ensures
        match parse_binary(t@, 0) {
            Ok((e, _)) => r is Ok && leaves_of(r->Ok_0) == e,
            Err(k) => r == Err::<LogicExpr<R>, ParseError>(k),
        },
{
    match binary::<R>(t, 0) {
        Ok((e, _)) => Ok(*e),
        Err(k) => Err(k),
    }
}

/// Parses a logic expression, ignoring whitespace; an error is reported by its
/// message.
pub fn parse_logic_expr<R: AsLogic>(l: &str) -> (r: Result<LogicExpr<R>, &'static str>)
    ensures
        match parse_binary(stripped(l@), 0) {
            Ok((e, _)) => r is Ok && leaves_of(r->Ok_0) == e,
            Err(k) => r is Err && r->Err_0@ == k.text(),
        },
{
    let t = strip_whitespace(l);
    match parse_chars::<R>(t.as_slice()) {
        Ok(e) => Ok(e),
        Err(k) => Err(k.message()),
    }
}

} // verus!
