//! The grammar, as a function from token sequences to trees.
//!
//! ```text
//! declaration := "let" name "=" expression ";" declaration | expression
//! expression  := operand (operator expression)*
//! operand     := number | name | "-" expression | open declaration close
//! ```
//!
//! Operators bind by power: `^` above `*` and `/`, these above unary `-`, and
//! that above `+` and `-`. Operators of one power group to the left, `^`
//! included: `2 ^ 3 ^ 2` is `(2 ^ 3) ^ 2`. A group is closed by the delimiter
//! family that opened it. `let` is a keyword: it names no variable.
//!
//! Delimiters are judged first and by themselves: a closing delimiter that
//! does not close the innermost open group is a mismatched scope, wherever it
//! stands and whatever else is wrong with the sequence. Of a sequence whose
//! delimiters match, the first fault from the left decides: an operand where
//! an operator had to stand, or the end of the input where more had to come,
//! makes the expression incomplete; any other token out of place is
//! unexpected.

use vstd::prelude::*;

use crate::parser::element::{Expr, Operation};
use crate::parser::scope_marker::ScopeMarker;
use crate::parser::token::Lexeme;

verus! {

/// Why a token sequence is no expression. Positions count tokens from 0 where
/// the parser reports them, and characters of the source text where the lexer
/// does.
#[derive(Clone, Copy, Debug, PartialEq, Eq, Structural)]
pub enum ParseError {
    /// The token at this index cannot stand where it stands, and is no
    /// operand that lacks an operator before it.
    UnexpectedToken(usize),
    /// The closing delimiter at this index closes nothing: no group is open
    /// there, or the innermost open group is of another family.
    MismatchedScope(usize),
    /// An operator or an operand is missing: the input ends where the
    /// expression cannot end, or an operand stands where an operator had to
    /// stand.
    IncompleteExpression,
    /// The character at this offset of the source text begins no token.
    UnknownOperator(usize),
    /// The digits at this offset of the source text denote a number above
    /// `i32::MAX`, the largest literal that a tree holds: a limit of the
    /// machine, not of the grammar.
    LiteralOutOfRange(usize),
}

/// A tree and the index of the first token after it, or the reason why there
/// is no tree.
pub type Parsed = Result<(Expr, int), ParseError>;

/// How tightly a binary operator binds.
pub open spec fn binding_power(op: Operation) -> nat {
    match op {
        Operation::Add => 1,
        Operation::Subtract => 1,
        Operation::Multiply => 3,
        Operation::Divide => 3,
        Operation::Power => 4,
    }
}

/// How tightly unary `-` binds: below `*`, above `+`.
pub open spec fn negation_power() -> nat {
    2
}

/// The keyword that starts a binding.
pub open spec fn is_let(name: Seq<char>) -> bool {
    name == seq!['l', 'e', 't']
}

/// The error for a position at which something else had to stand.
pub open spec fn unexpected(ts: Seq<Lexeme>, pos: int) -> ParseError {
    if pos >= ts.len() {
        ParseError::IncompleteExpression
    } else {
        ParseError::UnexpectedToken(pos as usize)
    }
}

/// Whether a token can start an operand: a number, a name other than `let`,
/// or an opening delimiter.
pub open spec fn starts_operand(t: Lexeme) -> bool {
    match t {
        Lexeme::Number(_) => true,
        Lexeme::Identifier(name) => !is_let(name),
        Lexeme::Delimiter(m) => m.opens(),
        _ => false,
    }
}

/// The error for a position after an expression at which neither an
/// operator stands nor what ends the construct that the expression is part
/// of. The end of the input there, or the start of another operand, makes
/// the expression incomplete; any other token is unexpected.
pub open spec fn stray(ts: Seq<Lexeme>, pos: int) -> ParseError {
    if pos >= ts.len() || starts_operand(ts[pos]) {
        ParseError::IncompleteExpression
    } else {
        ParseError::UnexpectedToken(pos as usize)
    }
}

/// The open groups after one more token, innermost last, or `None` where the
/// token is a closing delimiter that does not close the innermost of them.
pub open spec fn scope_step(open: Seq<ScopeMarker>, t: Lexeme) -> Option<Seq<ScopeMarker>> {
    match t {
        Lexeme::Delimiter(m) => {
            if m.opens() {
                Some(open.push(m))
            } else if m.closes() {
                if open.len() > 0 && open.last().pairs_with(m) {
                    Some(open.drop_last())
                } else {
                    None
                }
            } else {
                Some(open)
            }
        },
        _ => Some(open),
    }
}

/// The open groups after the tokens from `from` up to `to`, where `base` are
/// open before them, or the index of the first closing delimiter among them
/// that does not close the innermost open group.
pub open spec fn scopes(ts: Seq<Lexeme>, from: int, to: int, base: Seq<ScopeMarker>) -> Result<
    Seq<ScopeMarker>,
    int,
>
    decreases to - from,
{
    if to <= from {
        Ok(base)
    } else {
        match scopes(ts, from, to - 1, base) {
            Err(i) => Err(i),
            Ok(open) => match scope_step(open, ts[to - 1]) {
                Some(next) => Ok(next),
                None => Err(to - 1),
            },
        }
    }
}

/// The index of the first closing delimiter that closes nothing: no group is
/// open where it stands, or the innermost open group is of another family.
pub open spec fn first_mismatch(ts: Seq<Lexeme>) -> Option<int> {
    match scopes(ts, 0, ts.len() as int, Seq::empty()) {
        Err(i) => Some(i),
        Ok(_) => None,
    }
}

/// Whether the token at `pos` is a name other than `let`.
pub open spec fn names_variable(ts: Seq<Lexeme>, pos: int) -> bool {
    &&& 0 <= pos < ts.len()
    &&& ts[pos] matches Lexeme::Identifier(name)
    &&& !is_let(name)
}

/// Whether the token at `pos` is the keyword `let`.
pub open spec fn starts_binding(ts: Seq<Lexeme>, pos: int) -> bool {
    &&& 0 <= pos < ts.len()
    &&& ts[pos] matches Lexeme::Identifier(name)
    &&& is_let(name)
}

/// A declaration that starts at `pos`: any number of bindings, then an
/// expression.
///
/// The tests of the form `pos < p` in this function and the next three hold
/// whenever they are reached (`lemma_parse_advances`); they are there for the
/// recursion to be well founded.
pub open spec fn parse_declaration(ts: Seq<Lexeme>, pos: int) -> Parsed
    decreases ts.len() - pos, 3int,
{
    if starts_binding(ts, pos) {
        if !names_variable(ts, pos + 1) {
            Err(unexpected(ts, pos + 1))
        } else if !(pos + 2 < ts.len() && ts[pos + 2] == Lexeme::Assign) {
            Err(unexpected(ts, pos + 2))
        } else {
            match parse_expression(ts, pos + 3, 0) {
                Err(e) => Err(e),
                Ok((bound, p)) => {
                    if pos < p < ts.len() && ts[p] == Lexeme::Semicolon {
                        match parse_declaration(ts, p + 1) {
                            Err(e) => Err(e),
                            Ok((body, q)) => Ok(
                                (
                                    Expr::Let(
                                        ts[pos + 1]->Identifier_0,
                                        Box::new(bound),
                                        Box::new(body),
                                    ),
                                    q,
                                ),
                            ),
                        }
                    } else {
                        Err(stray(ts, p))
                    }
                },
            }
        }
    } else {
        parse_expression(ts, pos, 0)
    }
}

/// An expression that starts at `pos` and extends over the operators that bind
/// at least as tightly as `floor`.
pub open spec fn parse_expression(ts: Seq<Lexeme>, pos: int, floor: nat) -> Parsed
    decreases ts.len() - pos, 2int,
{
    match parse_operand(ts, pos) {
        Err(e) => Err(e),
        Ok((lhs, p)) => {
            if pos < p <= ts.len() {
                parse_operators(ts, p, lhs, floor)
            } else {
                Err(ParseError::IncompleteExpression)
            }
        },
    }
}

/// An operand that starts at `pos`: a number, a variable, a negated
/// expression or a group.
pub open spec fn parse_operand(ts: Seq<Lexeme>, pos: int) -> Parsed
    decreases ts.len() - pos, 1int,
{
    if pos < 0 || pos >= ts.len() {
        Err(ParseError::IncompleteExpression)
    } else {
        match ts[pos] {
            Lexeme::Number(n) => Ok((Expr::Val(n), pos + 1)),
            Lexeme::Identifier(name) => {
                if is_let(name) {
                    Err(ParseError::UnexpectedToken(pos as usize))
                } else {
                    Ok((Expr::Var(name), pos + 1))
                }
            },
            Lexeme::Operator(Operation::Subtract) => {
                match parse_expression(ts, pos + 1, negation_power()) {
                    Err(e) => Err(e),
                    Ok((e, p)) => Ok((Expr::negated(e), p)),
                }
            },
            Lexeme::Delimiter(m) => {
                if m.opens() {
                    match parse_declaration(ts, pos + 1) {
                        Err(e) => Err(e),
                        Ok((e, p)) => {
                            if closes_group(ts, p, m) {
                                Ok((e, p + 1))
                            } else {
                                Err(stray(ts, p))
                            }
                        },
                    }
                } else {
                    Err(ParseError::UnexpectedToken(pos as usize))
                }
            },
            _ => Err(ParseError::UnexpectedToken(pos as usize)),
        }
    }
}

/// Whether the token at `pos` is the closing delimiter of the family of
/// `open`.
pub open spec fn closes_group(
    ts: Seq<Lexeme>,
    pos: int,
    open: crate::parser::scope_marker::ScopeMarker,
) -> bool {
    &&& 0 <= pos < ts.len()
    &&& ts[pos] matches Lexeme::Delimiter(m)
    &&& m.closes()
    &&& open.pairs_with(m)
}

/// Whether the token at `pos` is a binary operator that binds at least as
/// tightly as `floor`.
pub open spec fn continues(ts: Seq<Lexeme>, pos: int, floor: nat) -> bool {
    &&& 0 <= pos < ts.len()
    &&& ts[pos] matches Lexeme::Operator(op)
    &&& binding_power(op) >= floor
}

/// The operators that follow the operand `lhs` from `pos` on: each one that
/// binds at least as tightly as `floor` takes what stands to its left as its
/// left operand, and as its right operand the expression of tighter binding
/// operators that follows it.
pub open spec fn parse_operators(ts: Seq<Lexeme>, pos: int, lhs: Expr, floor: nat) -> Parsed
    decreases ts.len() - pos, 0int,
{
    if continues(ts, pos, floor) {
        let op = ts[pos]->Operator_0;
        match parse_expression(ts, pos + 1, binding_power(op) + 1) {
            Err(e) => Err(e),
            Ok((rhs, p)) => {
                if pos < p <= ts.len() {
                    parse_operators(ts, p, Expr::Binary(op, Box::new(lhs), Box::new(rhs)), floor)
                } else {
                    Err(ParseError::IncompleteExpression)
                }
            },
        }
    } else {
        Ok((lhs, pos))
    }
}

/// The tree of a whole token sequence: a mismatched scope where a closing
/// delimiter closes nothing, and what the structure of the sequence gives
/// otherwise.
pub open spec fn parse(ts: Seq<Lexeme>) -> Result<Expr, ParseError> {
    match first_mismatch(ts) {
        Some(i) => Err(ParseError::MismatchedScope(i as usize)),
        None => structure(ts),
    }
}

/// The tree of a whole token sequence by its structure alone: a declaration
/// that leaves no token over.
pub open spec fn structure(ts: Seq<Lexeme>) -> Result<Expr, ParseError> {
    match parse_declaration(ts, 0) {
        Err(e) => Err(e),
        Ok((e, p)) => {
            if p == ts.len() {
                Ok(e)
            } else {
                Err(stray(ts, p))
            }
        },
    }
}

/// Whether `r` is a tree that ends after `pos` and within `ts`.
pub open spec fn advances(ts: Seq<Lexeme>, pos: int, r: Parsed) -> bool {
    r matches Ok((_, p)) ==> pos < p <= ts.len()
}

/// Every declaration, expression and operand holds at least one token and
/// ends within the input.
pub proof fn lemma_parse_advances(ts: Seq<Lexeme>, pos: int, floor: nat, which: int)
    requires
        0 <= pos,
        1 <= which <= 3,
    ensures
        which == 3 ==> advances(ts, pos, parse_declaration(ts, pos)),
        which == 2 ==> advances(ts, pos, parse_expression(ts, pos, floor)),
        which == 1 ==> advances(ts, pos, parse_operand(ts, pos)),
    decreases ts.len() - pos, which,
{
    if which == 3 {
        if starts_binding(ts, pos) {
            if names_variable(ts, pos + 1) && pos + 2 < ts.len() && ts[pos + 2] == Lexeme::Assign {
                if let Ok((bound, p)) = parse_expression(ts, pos + 3, 0) {
                    if pos < p < ts.len() && ts[p] == Lexeme::Semicolon {
                        lemma_parse_advances(ts, p + 1, 0, 3);
                    }
                }
            }
        } else {
            lemma_parse_advances(ts, pos, 0, 2);
        }
    } else if which == 2 {
        if let Ok((lhs, p)) = parse_operand(ts, pos) {
            if pos < p <= ts.len() {
                lemma_operators_advance(ts, p, lhs, floor);
            }
        }
    } else {
        if pos < ts.len() {
            match ts[pos] {
                Lexeme::Operator(Operation::Subtract) => {
                    lemma_parse_advances(ts, pos + 1, negation_power(), 2);
                },
                Lexeme::Delimiter(m) => {
                    if m.opens() {
                        lemma_parse_advances(ts, pos + 1, 0, 3);
                    }
                },
                _ => {},
            }
        }
    }
}

/// The operators after an operand end at or after where they start, within
/// the input.
pub proof fn lemma_operators_advance(ts: Seq<Lexeme>, pos: int, lhs: Expr, floor: nat)
    requires
        0 <= pos <= ts.len(),
    ensures
        parse_operators(ts, pos, lhs, floor) matches Ok((_, p)) ==> pos <= p <= ts.len(),
    decreases ts.len() - pos,
{
    if continues(ts, pos, floor) {
        let op = ts[pos]->Operator_0;
        if let Ok((rhs, p)) = parse_expression(ts, pos + 1, binding_power(op) + 1) {
            if pos < p <= ts.len() {
                lemma_operators_advance(
                    ts,
                    p,
                    Expr::Binary(op, Box::new(lhs), Box::new(rhs)),
                    floor,
                );
            }
        }
    }
}

/// A mismatch among the first tokens is the first mismatch of them all.
pub proof fn lemma_mismatch_is_first(ts: Seq<Lexeme>, at: int, to: int)
    requires
        at < to,
        scopes(ts, 0, at + 1, Seq::empty()) == Err::<Seq<ScopeMarker>, int>(at),
    ensures
        scopes(ts, 0, to, Seq::empty()) == Err::<Seq<ScopeMarker>, int>(at),
    decreases to - at,
{
    if at + 1 < to {
        lemma_mismatch_is_first(ts, at, to - 1);
    }
}

} // verus!
