//! Lexing, parsing and evaluation of arithmetic expressions.
//!
//! Text becomes tokens (`lexer`), tokens become a tree (`precedence`, against
//! the grammar of `grammar`), a tree becomes a closed tree once its variables
//! are resolved against the names of an environment (`resolver`), and a
//! closed tree becomes a number (`evaluator`). `laws` holds what is proved of
//! the grammar for every input, and `outside` what is believed of the code
//! that the library calls. `rendering` writes a tree out as text.

use vstd::prelude::*;

pub mod element;
pub mod evaluator;
pub mod grammar;
pub mod laws;
pub mod lexer;
pub mod outside;
pub mod precedence;
pub mod rendering;
pub mod resolver;
pub mod scope_marker;
pub mod token;

use crate::parser::element::{Element, Expr, Operation};
use crate::parser::evaluator::{
    computes, evaluate_with, evaluated, names_of, total_apply, total_literal, values_of,
};
use crate::parser::grammar::{parse, ParseError};
use crate::parser::lexer::tokenize;
use crate::parser::precedence::parse_tokens;
use crate::parser::resolver::{
    name_views, resolution, resolve, resolved, EvalError, Resolved, FORK_LEVELS,
};
use crate::parser::token::{lex, LexError};

verus! {

/// The tree that a source text denotes, or the reason why it denotes none.
///
/// A text that cannot be cut into tokens has the lexer's error, under the
/// name that the parser gives it: a character that begins no token is an
/// unknown operator.
pub open spec fn expression_of(source: Seq<char>) -> Result<Expr, ParseError> {
    match lex(source) {
        Err(LexError::UnsupportedSymbol(offset)) => Err(ParseError::UnknownOperator(offset)),
        Err(LexError::LiteralOutOfRange(offset)) => Err(ParseError::LiteralOutOfRange(offset)),
        Ok(tokens) => parse(tokens),
    }
}

/// A parsed expression, kept so that it is parsed once and resolved as often
/// as needed.
pub struct Expiration {
    ast: Element,
}

impl View for Expiration {
    type V = Expr;

    closed spec fn view(&self) -> Expr {
        self.ast@
    }
}

/// What the constructor returns, as a model.
pub open spec fn built(r: Result<Expiration, ParseError>) -> Result<Expr, ParseError> {
    match r {
        Ok(expression) => Ok(expression@),
        Err(e) => Err(e),
    }
}

impl Expiration {
    #[verifier::type_invariant]
    spec fn well_formed(self) -> bool {
        self.ast.wf()
    }

    /// Parses `input`.
    ///
    /// Returns the expression that the text denotes, or the first error met
    /// when reading it from left to right.
    pub fn new(input: &str) -> (r: Result<Self, ParseError>)
        ensures
            built(r) == expression_of(input@),
    {
        match tokenize(input) {
            Err(LexError::UnsupportedSymbol(offset)) => Err(ParseError::UnknownOperator(offset)),
            Err(LexError::LiteralOutOfRange(offset)) => Err(ParseError::LiteralOutOfRange(offset)),
            Ok(tokens) => match parse_tokens(&tokens) {
                Err(e) => Err(e),
                Ok(ast) => Ok(Expiration { ast }),
            },
        }
    }

    /// The tree of the expression.
    pub fn tree(&self) -> (t: &Element)
        ensures
            t@ == self@,
            t.wf(),
    {
        proof {
            use_type_invariant(self);
        }
        &self.ast
    }

    /// Evaluates the expression in the environment `bindings`, outermost
    /// binding first. `literal` gives the number of a literal and `apply` the
    /// result of an operator.
    ///
    /// Fails with the first variable that no binding around it names; returns
    /// a value of the resolved expression otherwise.
    pub fn calculate<V, L, A>(&self, bindings: &Vec<(String, V)>, literal: L, apply: A) -> (r:
        Result<V, EvalError>)
        where
            V: Copy + Send + Sync,
            L: Fn(i32) -> V + Copy + Send + Sync,
            A: Fn(Operation, V, V) -> V + Copy + Send + Sync,

        requires
            total_literal(literal),
            total_apply(apply),
        ensures
            match resolution(self@, names_of(bindings@)) {
                Err(name) => evaluated(r) == Err::<V, Seq<char>>(name),
                Ok(c) => r matches Ok(v) && computes(
                    c,
                    values_of(bindings@),
                    literal,
                    apply,
                    v,
                ),
            },
    {
        evaluate_with(&self.ast, bindings, literal, apply, FORK_LEVELS)
    }

    /// Resolves the expression in the scope of the bindings `names`,
    /// outermost first.
    ///
    /// Returns the closed tree, or the first variable that no binding around
    /// it names.
    pub fn resolve(&self, names: &Vec<String>) -> (r: Result<Resolved, EvalError>)
        ensures
            resolved(r) == resolution(self@, name_views(names@)),
            r matches Ok(c) ==> c@.within(names@.len()),
    {
        resolve(&self.ast, names)
    }
}

} // verus!
