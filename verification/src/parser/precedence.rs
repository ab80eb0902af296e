//! The precedence parser: two stacks, one pass over the tokens, no recursion.
//!
//! Before that pass the delimiters are matched by themselves, so that a
//! closing delimiter that closes nothing is reported whatever else is wrong.
//!
//! Operands wait on one stack and pending constructs on the other. A pending
//! construct is an operator that has its left operand and waits for its right
//! one, a negation or an open group that waits for what it applies to, or a
//! binding that waits for its bound expression or its body. What the two
//! stacks mean is stated against the grammar: at every token the parser holds
//! exactly the calls that a recursive reading of the grammar would have open
//! there.

use vstd::prelude::*;

use crate::parser::element::{Element, Expr, Operation};
use crate::parser::grammar::{
    binding_power, closes_group, continues, first_mismatch, is_let, lemma_mismatch_is_first,
    lemma_parse_advances, names_variable, negation_power, parse, parse_declaration,
    parse_expression, parse_operand, parse_operators, scopes, starts_binding, starts_operand,
    stray, structure, ParseError,
};
use crate::parser::scope_marker::ScopeMarker;
use crate::parser::token::{lexemes, Lexeme, Token};

verus! {

/// A construct that has begun and waits for the tokens that complete it.
enum Pending {
    /// A binary operator; its left operand is on the operand stack.
    Binary(Operation),
    /// A unary `-`.
    Negate,
    /// An opening delimiter.
    Open(ScopeMarker),
    /// `let name =`, waiting for the bound expression to end at a `;`.
    LetBind(String),
    /// `let name = bound ;`, with `bound` on the operand stack, waiting for
    /// the body to end.
    LetBody(String),
}

/// What the parser expects the next token to start.
#[derive(Clone, Copy, PartialEq, Eq, Structural)]
enum Expecting {
    /// A declaration: a binding or an operand.
    Declaration,
    /// An operand.
    Operand,
    /// An operator, or the end of an open construct.
    Operator,
}

impl Pending {
    /// Whether the construct keeps an operand on the operand stack.
    spec fn holds_operand(self) -> bool {
        self is Binary || self is LetBody
    }

    /// Whether the construct is complete as soon as the operand after it is:
    /// an operator, a negation or a binding's body, but no open group and no
    /// binding that still lacks its `;`.
    spec fn reducible(self) -> bool {
        self is Binary || self is Negate || self is LetBody
    }
}

/// The weakest operator that may extend the operand that follows the pending
/// constructs `ops`.
spec fn floor_of(ops: Seq<Pending>) -> nat {
    if ops.len() == 0 {
        0
    } else {
        match ops.last() {
            Pending::Binary(op) => binding_power(op) + 1,
            Pending::Negate => negation_power(),
            _ => 0,
        }
    }
}

/// The number of operands that the pending constructs keep on the operand
/// stack.
spec fn held(ops: Seq<Pending>) -> nat
    decreases ops.len(),
{
    if ops.len() == 0 {
        0
    } else {
        held(ops.drop_last()) + if ops.last().holds_operand() {
            1nat
        } else {
            0nat
        }
    }
}

/// The sum over the operands of their depth plus one: a bound on the number
/// of tokens that went into them.
spec fn weight(vals: Seq<Element>) -> nat
    decreases vals.len(),
{
    if vals.len() == 0 {
        0
    } else {
        weight(vals.drop_last()) + vals.last().spec_depth() + 1
    }
}

/// Every operand on the stack is well formed.
spec fn all_wf(vals: Seq<Element>) -> bool {
    forall|k: int| 0 <= k < vals.len() ==> (#[trigger] vals[k]).wf()
}

/// What the grammar makes of the input, given that the operand `lhs` ends at
/// `pos` under the pending constructs `ops`: the operators that extend `lhs`
/// are read, then the pending constructs are completed from the top.
spec fn resume(
    ts: Seq<Lexeme>,
    ops: Seq<Pending>,
    vals: Seq<Element>,
    lhs: Expr,
    pos: int,
) -> Result<Expr, ParseError>
    decreases ops.len(), 1int,
{
    match parse_operators(ts, pos, lhs, floor_of(ops)) {
        Err(e) => Err(e),
        Ok((t, p)) => unwind(ts, ops, vals, t, p),
    }
}

/// What the grammar makes of the input, given that the expression `t` ends at
/// `pos` and no operator extends it there: the pending construct on top of
/// `ops` is completed with `t`, and so on down the stack.
spec fn unwind(
    ts: Seq<Lexeme>,
    ops: Seq<Pending>,
    vals: Seq<Element>,
    t: Expr,
    pos: int,
) -> Result<Expr, ParseError>
    decreases ops.len(), 0int,
{
    if ops.len() == 0 {
        if pos == ts.len() {
            Ok(t)
        } else {
            Err(stray(ts, pos))
        }
    } else {
        let below = ops.drop_last();
        match ops.last() {
            Pending::Binary(op) => resume(
                ts,
                below,
                vals.drop_last(),
                Expr::Binary(op, Box::new(vals.last()@), Box::new(t)),
                pos,
            ),
            Pending::Negate => resume(ts, below, vals, Expr::negated(t), pos),
            Pending::Open(m) => {
                if closes_group(ts, pos, m) {
                    resume(ts, below, vals, t, pos + 1)
                } else {
                    Err(stray(ts, pos))
                }
            },
            Pending::LetBind(name) => {
                if 0 <= pos < ts.len() && ts[pos] == Lexeme::Semicolon {
                    match parse_declaration(ts, pos + 1) {
                        Err(e) => Err(e),
                        Ok((body, q)) => unwind(
                            ts,
                            below,
                            vals,
                            Expr::Let(name@, Box::new(t), Box::new(body)),
                            q,
                        ),
                    }
                } else {
                    Err(stray(ts, pos))
                }
            },
            Pending::LetBody(name) => unwind(
                ts,
                below,
                vals.drop_last(),
                Expr::Let(name@, Box::new(vals.last()@), Box::new(t)),
                pos,
            ),
        }
    }
}

/// What the grammar makes of the input, given that a declaration starts at
/// `pos` under the pending constructs `ops`.
spec fn declaration_next(
    ts: Seq<Lexeme>,
    ops: Seq<Pending>,
    vals: Seq<Element>,
    pos: int,
) -> Result<Expr, ParseError> {
    match parse_declaration(ts, pos) {
        Err(e) => Err(e),
        Ok((t, p)) => unwind(ts, ops, vals, t, p),
    }
}

/// What the grammar makes of the input, given that an operand starts at `pos`
/// under the pending constructs `ops`.
spec fn operand_next(
    ts: Seq<Lexeme>,
    ops: Seq<Pending>,
    vals: Seq<Element>,
    pos: int,
) -> Result<Expr, ParseError> {
    match parse_operand(ts, pos) {
        Err(e) => Err(e),
        Ok((t, p)) => resume(ts, ops, vals, t, p),
    }
}

/// What the grammar makes of the input, given the state of the parser before
/// the token at `pos`.
spec fn meaning(
    ts: Seq<Lexeme>,
    mode: Expecting,
    ops: Seq<Pending>,
    vals: Seq<Element>,
    pos: int,
) -> Result<Expr, ParseError> {
    match mode {
        Expecting::Declaration => declaration_next(ts, ops, vals, pos),
        Expecting::Operand => operand_next(ts, ops, vals, pos),
        Expecting::Operator => resume(ts, ops, vals.drop_last(), vals.last()@, pos),
    }
}

/// The state of the parser is consistent: the operand stack holds what the
/// pending constructs keep there, and the operand just read if there is one;
/// a declaration is expected only where no operator is pending on top; and
/// no more went onto the stacks than tokens were read.
spec fn consistent(
    mode: Expecting,
    ops: Seq<Pending>,
    vals: Seq<Element>,
    pos: int,
) -> bool {
    &&& vals.len() == held(ops) + if mode == Expecting::Operator {
        1nat
    } else {
        0nat
    }
    &&& mode == Expecting::Declaration ==> floor_of(ops) == 0
    &&& all_wf(vals)
    &&& weight(vals) + ops.len() <= pos
}

/// Where no operator extends the operand, the pending constructs are
/// completed at once.
proof fn lemma_resume_stops(
    ts: Seq<Lexeme>,
    ops: Seq<Pending>,
    vals: Seq<Element>,
    lhs: Expr,
    pos: int,
)
    requires
        !continues(ts, pos, floor_of(ops)),
    ensures
        resume(ts, ops, vals, lhs, pos) == unwind(ts, ops, vals, lhs, pos),
{
}

/// How the operand stack changes when the construct `top` is completed: the
/// operands that it takes leave the stack and the node that it builds enters.
spec fn reduced(top: Pending, before: Seq<Element>, after: Seq<Element>) -> bool {
    match top {
        Pending::Binary(op) => {
            &&& before.len() >= 2
            &&& after.len() == before.len() - 1
            &&& after.drop_last() == before.drop_last().drop_last()
            &&& after.last()@ == Expr::Binary(
                op,
                Box::new(before[before.len() - 2]@),
                Box::new(before.last()@),
            )
        },
        Pending::Negate => {
            &&& before.len() >= 1
            &&& after.len() == before.len()
            &&& after.drop_last() == before.drop_last()
            &&& after.last()@ == Expr::negated(before.last()@)
        },
        Pending::LetBody(name) => {
            &&& before.len() >= 2
            &&& after.len() == before.len() - 1
            &&& after.drop_last() == before.drop_last().drop_last()
            &&& after.last()@ == Expr::Let(
                name@,
                Box::new(before[before.len() - 2]@),
                Box::new(before.last()@),
            )
        },
        _ => false,
    }
}

/// Completing the construct on top of the stack does not change what the
/// input means.
proof fn lemma_reduce(
    ts: Seq<Lexeme>,
    ops: Seq<Pending>,
    before: Seq<Element>,
    after: Seq<Element>,
    pos: int,
)
    requires
        ops.len() > 0,
        reduced(ops.last(), before, after),
    ensures
        unwind(ts, ops, before.drop_last(), before.last()@, pos) == if ops.last() is LetBody {
            unwind(ts, ops.drop_last(), after.drop_last(), after.last()@, pos)
        } else {
            resume(ts, ops.drop_last(), after.drop_last(), after.last()@, pos)
        },
{
}

/// A binary operator that may extend the operand just read becomes pending,
/// and its right operand is expected.
proof fn lemma_push_binary(ts: Seq<Lexeme>, ops: Seq<Pending>, vals: Seq<Element>, pos: int)
    requires
        vals.len() > 0,
        continues(ts, pos, floor_of(ops)),
    ensures
        resume(ts, ops, vals.drop_last(), vals.last()@, pos) == operand_next(
            ts,
            ops.push(Pending::Binary(ts[pos]->Operator_0)),
            vals,
            pos + 1,
        ),
{
    let op = ts[pos]->Operator_0;
    let lhs = vals.last()@;
    let pushed = ops.push(Pending::Binary(op));
    assert(pushed.drop_last() == ops);
    assert(pushed.last() == Pending::Binary(op));
    lemma_parse_advances(ts, pos + 1, 0, 1);
    lemma_parse_advances(ts, pos + 1, binding_power(op) + 1, 2);
    match parse_operand(ts, pos + 1) {
        Err(e) => {},
        Ok((first, mid)) => {
            assert(resume(ts, pushed, vals, first, mid) == match parse_operators(
                ts,
                mid,
                first,
                binding_power(op) + 1,
            ) {
                Err(e) => Err(e),
                Ok((rhs, p)) => unwind(ts, pushed, vals, rhs, p),
            });
            match parse_operators(ts, mid, first, binding_power(op) + 1) {
                Err(e) => {},
                Ok((rhs, p)) => {
                    assert(unwind(ts, pushed, vals, rhs, p) == resume(
                        ts,
                        ops,
                        vals.drop_last(),
                        Expr::Binary(op, Box::new(lhs), Box::new(rhs)),
                        p,
                    ));
                },
            }
        },
    }
}

/// A unary `-` becomes pending, and its operand is expected.
proof fn lemma_push_negate(ts: Seq<Lexeme>, ops: Seq<Pending>, vals: Seq<Element>, pos: int)
    requires
        0 <= pos < ts.len(),
        ts[pos] == Lexeme::Operator(Operation::Subtract),
    ensures
        operand_next(ts, ops, vals, pos) == operand_next(
            ts,
            ops.push(Pending::Negate),
            vals,
            pos + 1,
        ),
{
    let pushed = ops.push(Pending::Negate);
    assert(pushed.drop_last() == ops);
    assert(pushed.last() == Pending::Negate);
    lemma_parse_advances(ts, pos + 1, 0, 1);
    match parse_operand(ts, pos + 1) {
        Err(e) => {},
        Ok((first, mid)) => {
            assert(resume(ts, pushed, vals, first, mid) == match parse_operators(
                ts,
                mid,
                first,
                negation_power(),
            ) {
                Err(e) => Err(e),
                Ok((e, p)) => unwind(ts, pushed, vals, e, p),
            });
            match parse_operators(ts, mid, first, negation_power()) {
                Err(e) => {},
                Ok((e, p)) => {
                    assert(unwind(ts, pushed, vals, e, p) == resume(
                        ts,
                        ops,
                        vals,
                        Expr::negated(e),
                        p,
                    ));
                },
            }
        },
    }
}

/// An opening delimiter becomes pending, and a declaration is expected.
proof fn lemma_push_open(
    ts: Seq<Lexeme>,
    ops: Seq<Pending>,
    vals: Seq<Element>,
    pos: int,
    m: ScopeMarker,
)
    requires
        0 <= pos < ts.len(),
        ts[pos] == Lexeme::Delimiter(m),
        m.opens(),
    ensures
        operand_next(ts, ops, vals, pos) == declaration_next(
            ts,
            ops.push(Pending::Open(m)),
            vals,
            pos + 1,
        ),
{
    let pushed = ops.push(Pending::Open(m));
    assert(pushed.drop_last() == ops);
    assert(pushed.last() == Pending::Open(m));
    match parse_declaration(ts, pos + 1) {
        Err(e) => {},
        Ok((e, p)) => {
            assert(unwind(ts, pushed, vals, e, p) == if closes_group(ts, p, m) {
                resume(ts, ops, vals, e, p + 1)
            } else {
                Err(stray(ts, p))
            });
        },
    }
}

/// Where a declaration is expected and no binding starts, an operand is
/// expected.
proof fn lemma_declaration_is_operand(
    ts: Seq<Lexeme>,
    ops: Seq<Pending>,
    vals: Seq<Element>,
    pos: int,
)
    requires
        0 <= pos,
        floor_of(ops) == 0,
        !starts_binding(ts, pos),
    ensures
        declaration_next(ts, ops, vals, pos) == operand_next(ts, ops, vals, pos),
{
    lemma_parse_advances(ts, pos, 0, 1);
    assert(parse_declaration(ts, pos) == parse_expression(ts, pos, 0));
    match parse_operand(ts, pos) {
        Err(e) => {},
        Ok((first, p)) => {
            assert(parse_expression(ts, pos, 0) == parse_operators(ts, p, first, 0));
        },
    }
}

/// The head of a binding becomes pending, and the bound expression is
/// expected.
proof fn lemma_push_binding(
    ts: Seq<Lexeme>,
    ops: Seq<Pending>,
    vals: Seq<Element>,
    pos: int,
    name: String,
)
    requires
        0 <= pos,
        starts_binding(ts, pos),
        names_variable(ts, pos + 1),
        ts[pos + 1] == Lexeme::Identifier(name@),
        pos + 2 < ts.len(),
        ts[pos + 2] == Lexeme::Assign,
    ensures
        declaration_next(ts, ops, vals, pos) == operand_next(
            ts,
            ops.push(Pending::LetBind(name)),
            vals,
            pos + 3,
        ),
{
    let pushed = ops.push(Pending::LetBind(name));
    assert(pushed.drop_last() == ops);
    assert(pushed.last() == Pending::LetBind(name));
    lemma_parse_advances(ts, pos + 3, 0, 1);
    lemma_parse_advances(ts, pos + 3, 0, 2);
    match parse_operand(ts, pos + 3) {
        Err(e) => {},
        Ok((first, mid)) => {
            assert(resume(ts, pushed, vals, first, mid) == match parse_operators(
                ts,
                mid,
                first,
                0,
            ) {
                Err(e) => Err(e),
                Ok((bound, p)) => unwind(ts, pushed, vals, bound, p),
            });
            match parse_operators(ts, mid, first, 0) {
                Err(e) => {},
                Ok((bound, p)) => {
                    assert(unwind(ts, pushed, vals, bound, p) == if 0 <= p < ts.len() && ts[p]
                        == Lexeme::Semicolon {
                        match parse_declaration(ts, p + 1) {
                            Err(e) => Err(e),
                            Ok((body, q)) => unwind(
                                ts,
                                ops,
                                vals,
                                Expr::Let(name@, Box::new(bound), Box::new(body)),
                                q,
                            ),
                        }
                    } else {
                        Err(stray(ts, p))
                    });
                },
            }
        },
    }
}

/// A closing delimiter completes the group on top of the stack if that group
/// was opened by its family, and is unexpected otherwise.
proof fn lemma_close(
    ts: Seq<Lexeme>,
    ops: Seq<Pending>,
    vals: Seq<Element>,
    t: Expr,
    pos: int,
    m: ScopeMarker,
)
    requires
        0 <= pos < ts.len(),
        ts[pos] == Lexeme::Delimiter(m),
        m.closes(),
        ops.len() > 0 ==> !ops.last().reducible(),
    ensures
        unwind(ts, ops, vals, t, pos) == if ops.len() > 0 && ops.last() is Open
            && ops.last()->Open_0.pairs_with(m) {
            resume(ts, ops.drop_last(), vals, t, pos + 1)
        } else {
            Err(ParseError::UnexpectedToken(pos as usize))
        },
{
}

/// A `;` ends the bound expression of the binding on top of the stack, whose
/// body is expected next; anywhere else it is unexpected.
proof fn lemma_semicolon(
    ts: Seq<Lexeme>,
    ops: Seq<Pending>,
    vals: Seq<Element>,
    pos: int,
)
    requires
        0 <= pos < ts.len(),
        ts[pos] == Lexeme::Semicolon,
        vals.len() > 0,
        ops.len() > 0 ==> !ops.last().reducible(),
    ensures
        unwind(ts, ops, vals.drop_last(), vals.last()@, pos) == if ops.len() > 0
            && ops.last() is LetBind {
            declaration_next(
                ts,
                ops.drop_last().push(Pending::LetBody(ops.last()->LetBind_0)),
                vals,
                pos + 1,
            )
        } else {
            Err(ParseError::UnexpectedToken(pos as usize))
        },
{
    if ops.len() > 0 && ops.last() is LetBind {
        let name = ops.last()->LetBind_0;
        let swapped = ops.drop_last().push(Pending::LetBody(name));
        assert(swapped.drop_last() == ops.drop_last());
        assert(swapped.last() == Pending::LetBody(name));
        match parse_declaration(ts, pos + 1) {
            Err(e) => {},
            Ok((body, q)) => {
                assert(unwind(ts, swapped, vals, body, q) == unwind(
                    ts,
                    ops.drop_last(),
                    vals.drop_last(),
                    Expr::Let(name@, Box::new(vals.last()@), Box::new(body)),
                    q,
                ));
            },
        }
    }
}

/// Whether the token at `pos` can follow an operand: an operator, a closing
/// delimiter or a `;`.
spec fn follows_operand(ts: Seq<Lexeme>, pos: int) -> bool {
    ||| ts[pos] is Operator
    ||| ts[pos] is Semicolon
    ||| (ts[pos] matches Lexeme::Delimiter(m) && m.closes())
}

/// A token that cannot follow an operand is stray after one, whatever is
/// pending.
proof fn lemma_cannot_follow(
    ts: Seq<Lexeme>,
    ops: Seq<Pending>,
    vals: Seq<Element>,
    t: Expr,
    pos: int,
)
    requires
        0 <= pos < ts.len(),
        !follows_operand(ts, pos),
    ensures
        resume(ts, ops, vals, t, pos) == Err::<Expr, ParseError>(stray(ts, pos)),
        unwind(ts, ops, vals, t, pos) == Err::<Expr, ParseError>(stray(ts, pos)),
    decreases ops.len(),
{
    if ops.len() > 0 {
        let below = ops.drop_last();
        match ops.last() {
            Pending::Binary(op) => {
                lemma_cannot_follow(
                    ts,
                    below,
                    vals.drop_last(),
                    Expr::Binary(op, Box::new(vals.last()@), Box::new(t)),
                    pos,
                );
            },
            Pending::Negate => {
                lemma_cannot_follow(ts, below, vals, Expr::negated(t), pos);
            },
            Pending::LetBody(name) => {
                lemma_cannot_follow(
                    ts,
                    below,
                    vals.drop_last(),
                    Expr::Let(name@, Box::new(vals.last()@), Box::new(t)),
                    pos,
                );
            },
            _ => {},
        }
    }
}

/// An operand more weighs its depth plus one more.
proof fn lemma_weight_push(vals: Seq<Element>, e: Element)
    ensures
        weight(vals.push(e)) == weight(vals) + e.spec_depth() + 1,
{
    assert(vals.push(e).drop_last() == vals);
}

/// A pending construct more holds one operand more, or none.
proof fn lemma_held_push(ops: Seq<Pending>, top: Pending)
    ensures
        held(ops.push(top)) == held(ops) + if top.holds_operand() {
            1nat
        } else {
            0nat
        },
{
    assert(ops.push(top).drop_last() == ops);
}

/// What the parser returns, as a model.
pub open spec fn parsed(r: Result<Element, ParseError>) -> Result<Expr, ParseError> {
    match r {
        Ok(e) => Ok(e@),
        Err(e) => Err(e),
    }
}

fn power(op: Operation) -> (b: u8)
    ensures
        b == binding_power(op),
{
    match op {
        Operation::Add => 1,
        Operation::Subtract => 1,
        Operation::Multiply => 3,
        Operation::Divide => 3,
        Operation::Power => 4,
    }
}

fn floor(ops: &Vec<Pending>) -> (b: u8)
    ensures
        b == floor_of(ops@),
{
    if ops.len() == 0 {
        0
    } else {
        match &ops[ops.len() - 1] {
            Pending::Binary(op) => power(*op) + 1,
            Pending::Negate => 2,
            _ => 0,
        }
    }
}

fn top_reducible(ops: &Vec<Pending>) -> (b: bool)
    ensures
        b == (ops@.len() > 0 && ops@.last().reducible()),
{
    if ops.len() == 0 {
        false
    } else {
        match &ops[ops.len() - 1] {
            Pending::Binary(_) => true,
            Pending::Negate => true,
            Pending::LetBody(_) => true,
            _ => false,
        }
    }
}

fn is_keyword_let(name: &String) -> (b: bool)
    ensures
        b == is_let(name@),
{
    let s = name.as_str();
    let b = s.unicode_len() == 3 && s.get_char(0) == 'l' && s.get_char(1) == 'e' && s.get_char(2)
        == 't';
    assert(b == (name@ =~= seq!['l', 'e', 't']));
    b
}

/// Completes the construct on top of the pending stack: pops the operands
/// that it takes and pushes the node that it builds.
fn reduce_top(vals: &mut Vec<Element>, ops: &mut Vec<Pending>)
    requires
        old(ops)@.len() > 0,
        old(ops)@.last().reducible(),
        old(vals)@.len() == held(old(ops)@) + 1,
        all_wf(old(vals)@),
        weight(old(vals)@) + old(ops)@.len() <= usize::MAX,
    ensures
        final(ops)@ == old(ops)@.drop_last(),
        reduced(old(ops)@.last(), old(vals)@, final(vals)@),
        final(vals)@.len() == held(final(ops)@) + 1,
        all_wf(final(vals)@),
        weight(final(vals)@) + final(ops)@.len() <= weight(old(vals)@) + old(ops)@.len(),
{
    let ghost before = vals@;
    let ghost rest = vals@.drop_last();
    let top = ops.pop().unwrap();
    let right = vals.pop().unwrap();
    assert(weight(before) == weight(rest) + right.spec_depth() + 1);
    match top {
        Pending::Binary(op) => {
            let left = vals.pop().unwrap();
            assert(weight(rest) == weight(rest.drop_last()) + left.spec_depth() + 1);
            let node = Element::from_operation(left, op, right);
            proof {
                lemma_weight_push(vals@, node);
            }
            vals.push(node);
            assert(vals@.drop_last() == before.drop_last().drop_last());
        },
        Pending::Negate => {
            let node = Element::negation(right);
            proof {
                lemma_weight_push(vals@, node);
            }
            vals.push(node);
            assert(vals@.drop_last() == before.drop_last());
        },
        Pending::LetBody(name) => {
            let left = vals.pop().unwrap();
            assert(weight(rest) == weight(rest.drop_last()) + left.spec_depth() + 1);
            let node = Element::let_in(name, left, right);
            proof {
                lemma_weight_push(vals@, node);
            }
            vals.push(node);
            assert(vals@.drop_last() == before.drop_last().drop_last());
        },
        _ => {},
    }
}

/// Completes every construct that is complete once the operand on top of the
/// operand stack is: all down to the innermost open group or unfinished
/// binding.
fn settle(
    vals: &mut Vec<Element>,
    ops: &mut Vec<Pending>,
    Ghost(ts): Ghost<Seq<Lexeme>>,
    Ghost(pos): Ghost<int>,
)
    requires
        consistent(Expecting::Operator, old(ops)@, old(vals)@, pos),
        0 <= pos <= usize::MAX,
        pos < ts.len() ==> !(ts[pos] is Operator),
    ensures
        consistent(Expecting::Operator, final(ops)@, final(vals)@, pos),
        final(ops)@.len() > 0 ==> !final(ops)@.last().reducible(),
        unwind(ts, final(ops)@, final(vals)@.drop_last(), final(vals)@.last()@, pos) == unwind(
            ts,
            old(ops)@,
            old(vals)@.drop_last(),
            old(vals)@.last()@,
            pos,
        ),
{
    while top_reducible(ops)
        invariant
            consistent(Expecting::Operator, ops@, vals@, pos),
            0 <= pos <= usize::MAX,
            pos < ts.len() ==> !(ts[pos] is Operator),
            unwind(ts, ops@, vals@.drop_last(), vals@.last()@, pos) == unwind(
                ts,
                old(ops)@,
                old(vals)@.drop_last(),
                old(vals)@.last()@,
                pos,
            ),
        decreases ops@.len(),
    {
        let ghost before = vals@;
        let ghost pending = ops@;
        reduce_top(vals, ops);
        proof {
            lemma_reduce(ts, pending, before, vals@, pos);
            lemma_resume_stops(ts, ops@, vals@.drop_last(), vals@.last()@, pos);
        }
    }
}

/// The error for a token that stands after an operand and cannot follow it.
fn stray_error(token: &Token, index: usize) -> (e: ParseError)
    ensures
        e == if starts_operand(token@) {
            ParseError::IncompleteExpression
        } else {
            ParseError::UnexpectedToken(index)
        },
{
    match token {
        Token::Number(_) => ParseError::IncompleteExpression,
        Token::Identifier(name) => {
            if is_keyword_let(name) {
                ParseError::UnexpectedToken(index)
            } else {
                ParseError::IncompleteExpression
            }
        },
        Token::Delimiter(m) => {
            if m.is_open() {
                ParseError::IncompleteExpression
            } else {
                ParseError::UnexpectedToken(index)
            }
        },
        _ => ParseError::UnexpectedToken(index),
    }
}

/// Looks for the first closing delimiter that closes nothing.
fn find_mismatch(tokens: &Vec<Token>) -> (r: Option<usize>)
    ensures
        match r {
            Some(i) => first_mismatch(lexemes(tokens@)) == Some(i as int),
            None => first_mismatch(lexemes(tokens@)) is None,
        },
{
    let ghost ts = lexemes(tokens@);
    let mut open: Vec<ScopeMarker> = Vec::new();
    let mut i: usize = 0;
    while i < tokens.len()
        invariant
            i <= tokens.len(),
            ts == lexemes(tokens@),
            scopes(ts, 0, i as int, Seq::empty()) == Ok::<Seq<ScopeMarker>, int>(open@),
        decreases tokens.len() - i,
    {
        assert(ts[i as int] == tokens@[i as int]@);
        match &tokens[i] {
            Token::Delimiter(m) => {
                if m.is_open() {
                    open.push(*m);
                } else if m.is_close() {
                    if open.len() > 0 && open[open.len() - 1].same_scope(m) {
                        open.pop();
                    } else {
                        proof {
                            lemma_mismatch_is_first(ts, i as int, ts.len() as int);
                        }
                        return Some(i);
                    }
                }
            },
            _ => {},
        }
        i = i + 1;
    }
    None
}

/// Parses a token sequence into its tree.
///
/// Returns the tree that the grammar gives the sequence, with every cached
/// depth in place, or the error that the grammar gives it: a mismatched
/// scope for the first closing delimiter that closes nothing, and else the
/// first fault of the structure.
pub fn parse_tokens(tokens: &Vec<Token>) -> (r: Result<Element, ParseError>)
    ensures
        parsed(r) == parse(lexemes(tokens@)),
        r matches Ok(e) ==> e.wf(),
{
    match find_mismatch(tokens) {
        Some(i) => Err(ParseError::MismatchedScope(i)),
        None => parse_structure(tokens),
    }
}

/// Parses a token sequence by its structure alone, on two stacks.
///
/// A closing delimiter that does not close the group on top of the pending
/// stack is unexpected here; after `find_mismatch` there is none.
fn parse_structure(tokens: &Vec<Token>) -> (r: Result<Element, ParseError>)
    ensures
        parsed(r) == structure(lexemes(tokens@)),
        r matches Ok(e) ==> e.wf(),
{
    let n = tokens.len();
    let ghost ts = lexemes(tokens@);
    let mut vals: Vec<Element> = Vec::new();
    let mut ops: Vec<Pending> = Vec::new();
    let mut mode = Expecting::Declaration;
    let mut i: usize = 0;
    while i < n
        invariant
            n == tokens.len(),
            ts == lexemes(tokens@),
            i <= n,
            consistent(mode, ops@, vals@, i as int),
            structure(ts) == meaning(ts, mode, ops@, vals@, i as int),
        decreases n - i,
    {
        let token = &tokens[i];
        let ghost at = i as int;
        assert(ts[at] == token@);
        if mode == Expecting::Operator {
            match token {
                Token::Operator(op) => {
                    let b = power(*op);
                    while floor(&ops) > b
                        invariant
                            i < n == ts.len(),
                            at == i,
                            ts[at] == Lexeme::Operator(*op),
                            b == binding_power(*op),
                            consistent(Expecting::Operator, ops@, vals@, at),
                            structure(ts) == resume(ts, ops@, vals@.drop_last(), vals@.last()@, at),
                        decreases ops@.len(),
                    {
                        let ghost before = vals@;
                        let ghost pending = ops@;
                        proof {
                            lemma_resume_stops(ts, ops@, vals@.drop_last(), vals@.last()@, at);
                        }
                        reduce_top(&mut vals, &mut ops);
                        proof {
                            lemma_reduce(ts, pending, before, vals@, at);
                        }
                    }
                    proof {
                        lemma_push_binary(ts, ops@, vals@, at);
                        lemma_held_push(ops@, Pending::Binary(*op));
                    }
                    ops.push(Pending::Binary(*op));
                    mode = Expecting::Operand;
                    i = i + 1;
                },
                Token::Delimiter(m) => {
                    if m.is_close() {
                        proof {
                            lemma_resume_stops(ts, ops@, vals@.drop_last(), vals@.last()@, at);
                        }
                        settle(&mut vals, &mut ops, Ghost(ts), Ghost(at));
                        proof {
                            lemma_close(ts, ops@, vals@.drop_last(), vals@.last()@, at, *m);
                        }
                        match ops.pop() {
                            Some(Pending::Open(opener)) => {
                                if opener.same_scope(m) {
                                    i = i + 1;
                                } else {
                                    return Err(ParseError::UnexpectedToken(i));
                                }
                            },
                            _ => {
                                return Err(ParseError::UnexpectedToken(i));
                            },
                        }
                    } else {
                        proof {
                            lemma_cannot_follow(
                                ts,
                                ops@,
                                vals@.drop_last(),
                                vals@.last()@,
                                at,
                            );
                        }
                        return Err(stray_error(token, i));
                    }
                },
                Token::Semicolon => {
                    proof {
                        lemma_resume_stops(ts, ops@, vals@.drop_last(), vals@.last()@, at);
                    }
                    settle(&mut vals, &mut ops, Ghost(ts), Ghost(at));
                    proof {
                        lemma_semicolon(ts, ops@, vals@, at);
                    }
                    let ghost pending = ops@;
                    match ops.pop() {
                        Some(Pending::LetBind(name)) => {
                            proof {
                                lemma_held_push(pending.drop_last(), Pending::LetBody(name));
                            }
                            ops.push(Pending::LetBody(name));
                            mode = Expecting::Declaration;
                            i = i + 1;
                        },
                        _ => {
                            return Err(ParseError::UnexpectedToken(i));
                        },
                    }
                },
                _ => {
                    proof {
                        lemma_cannot_follow(ts, ops@, vals@.drop_last(), vals@.last()@, at);
                    }
                    return Err(stray_error(token, i));
                },
            }
        } else {
            proof {
                if mode == Expecting::Declaration && !starts_binding(ts, at) {
                    lemma_declaration_is_operand(ts, ops@, vals@, at);
                }
            }
            match token {
                Token::Number(value) => {
                    let leaf = Element::from_val(*value);
                    proof {
                        lemma_weight_push(vals@, leaf);
                        assert(vals@.push(leaf).drop_last() == vals@);
                    }
                    vals.push(leaf);
                    mode = Expecting::Operator;
                    i = i + 1;
                },
                Token::Identifier(name) => {
                    if is_keyword_let(name) {
                        if mode == Expecting::Declaration {
                            if i + 1 >= n {
                                return Err(ParseError::IncompleteExpression);
                            }
                            assert(ts[i + 1] == tokens@[i + 1]@);
                            let bound_name = match &tokens[i + 1] {
                                Token::Identifier(s) => {
                                    if is_keyword_let(s) {
                                        return Err(ParseError::UnexpectedToken(i + 1));
                                    }
                                    s.clone()
                                },
                                _ => {
                                    return Err(ParseError::UnexpectedToken(i + 1));
                                },
                            };
                            if i + 2 >= n {
                                return Err(ParseError::IncompleteExpression);
                            }
                            assert(ts[i + 2] == tokens@[i + 2]@);
                            match &tokens[i + 2] {
                                Token::Assign => {},
                                _ => {
                                    return Err(ParseError::UnexpectedToken(i + 2));
                                },
                            }
                            proof {
                                lemma_push_binding(ts, ops@, vals@, at, bound_name);
                                lemma_held_push(ops@, Pending::LetBind(bound_name));
                            }
                            ops.push(Pending::LetBind(bound_name));
                            mode = Expecting::Operand;
                            i = i + 3;
                        } else {
                            return Err(ParseError::UnexpectedToken(i));
                        }
                    } else {
                        let leaf = Element::from_var(name.clone());
                        proof {
                            lemma_weight_push(vals@, leaf);
                            assert(vals@.push(leaf).drop_last() == vals@);
                        }
                        vals.push(leaf);
                        mode = Expecting::Operator;
                        i = i + 1;
                    }
                },
                Token::Operator(op) => {
                    if *op == Operation::Subtract {
                        proof {
                            lemma_push_negate(ts, ops@, vals@, at);
                            lemma_held_push(ops@, Pending::Negate);
                        }
                        ops.push(Pending::Negate);
                        mode = Expecting::Operand;
                        i = i + 1;
                    } else {
                        return Err(ParseError::UnexpectedToken(i));
                    }
                },
                Token::Delimiter(m) => {
                    if m.is_open() {
                        proof {
                            lemma_push_open(ts, ops@, vals@, at, *m);
                            lemma_held_push(ops@, Pending::Open(*m));
                        }
                        ops.push(Pending::Open(*m));
                        mode = Expecting::Declaration;
                        i = i + 1;
                    } else {
                        return Err(ParseError::UnexpectedToken(i));
                    }
                },
                _ => {
                    return Err(ParseError::UnexpectedToken(i));
                },
            }
        }
    }
    if mode == Expecting::Operator {
        proof {
            lemma_resume_stops(ts, ops@, vals@.drop_last(), vals@.last()@, i as int);
        }
        settle(&mut vals, &mut ops, Ghost(ts), Ghost(i as int));
        if ops.len() == 0 {
            let tree = vals.pop().unwrap();
            Ok(tree)
        } else {
            Err(ParseError::IncompleteExpression)
        }
    } else {
        proof {
            if mode == Expecting::Declaration {
                lemma_declaration_is_operand(ts, ops@, vals@, i as int);
            }
        }
        Err(ParseError::IncompleteExpression)
    }
}

} // verus!
