//! What holds of the grammar whatever the input is.

use vstd::prelude::*;

use crate::parser::element::{Expr, Operation};
use crate::parser::expression_of;
use crate::parser::grammar::{
    binding_power, closes_group, continues, first_mismatch, is_let, lemma_mismatch_is_first,
    lemma_operators_advance, lemma_parse_advances, names_variable, negation_power, parse,
    parse_declaration, parse_expression, parse_operand, parse_operators, scope_step, scopes,
    starts_binding, starts_operand, structure, ParseError, Parsed,
};
use crate::parser::resolver::resolution;
use crate::parser::scope_marker::ScopeMarker;
use crate::parser::token::{lemma_lex_concat, lex, lex_from, LexError, Lexeme};

verus! {

/// Whether an expression can end before `post`: at the end of the input, or
/// before a token that is no operator.
pub open spec fn ends_before(post: Seq<Lexeme>) -> bool {
    post.len() == 0 || !(post[0] is Operator)
}

/// `r`, with the position after the tree moved `by` tokens to the right.
pub open spec fn moved(r: Parsed, by: int) -> Parsed {
    match r {
        Ok((e, p)) => Ok((e, p + by)),
        Err(e) => Err(e),
    }
}

/// A tree that is read from part of the input is read from that part
/// wherever it stands: between any tokens `pre` before it and any tokens
/// `post` after it before which an expression can end.
///
/// `which` selects the construct: 3 a declaration, 2 an expression, 1 an
/// operand, 0 the operators after the operand `lhs`.
pub proof fn lemma_parse_in_context(
    ts: Seq<Lexeme>,
    pre: Seq<Lexeme>,
    post: Seq<Lexeme>,
    pos: int,
    floor: nat,
    lhs: Expr,
    which: int,
)
    requires
        0 <= pos <= ts.len(),
        ends_before(post),
        0 <= which <= 3,
    ensures
        which == 3 && parse_declaration(ts, pos) is Ok ==> parse_declaration(
            pre + ts + post,
            pos + pre.len(),
        ) == moved(parse_declaration(ts, pos), pre.len() as int),
        which == 2 && parse_expression(ts, pos, floor) is Ok ==> parse_expression(
            pre + ts + post,
            pos + pre.len(),
            floor,
        ) == moved(parse_expression(ts, pos, floor), pre.len() as int),
        which == 1 && parse_operand(ts, pos) is Ok ==> parse_operand(
            pre + ts + post,
            pos + pre.len(),
        ) == moved(parse_operand(ts, pos), pre.len() as int),
        which == 0 && parse_operators(ts, pos, lhs, floor) is Ok ==> parse_operators(
            pre + ts + post,
            pos + pre.len(),
            lhs,
            floor,
        ) == moved(parse_operators(ts, pos, lhs, floor), pre.len() as int),
    decreases ts.len() - pos, which,
{
    let all = pre + ts + post;
    let k = pre.len() as int;
    assert(forall|j: int| 0 <= j < ts.len() ==> all[j + k] == ts[j]);
    assert(all.len() == k + ts.len() + post.len());
    if post.len() > 0 {
        assert(all[ts.len() + k] == post[0]);
    }
    if which == 3 {
        if parse_declaration(ts, pos) is Ok {
            if starts_binding(ts, pos) {
                assert(starts_binding(all, pos + k));
                assert(names_variable(all, pos + 1 + k));
                assert(all[pos + 2 + k] == Lexeme::Assign);
                let (bound, p) = parse_expression(ts, pos + 3, 0)->Ok_0;
                lemma_parse_in_context(ts, pre, post, pos + 3, 0, lhs, 2);
                assert(all[p + k] == Lexeme::Semicolon);
                lemma_parse_in_context(ts, pre, post, p + 1, 0, lhs, 3);
            } else {
                assert(parse_declaration(ts, pos) == parse_expression(ts, pos, 0));
                assert(parse_operand(ts, pos) is Ok);
                assert(pos < ts.len());
                assert(!starts_binding(all, pos + k));
                lemma_parse_in_context(ts, pre, post, pos, 0, lhs, 2);
            }
        }
    } else if which == 2 {
        if parse_expression(ts, pos, floor) is Ok {
            let (first, p) = parse_operand(ts, pos)->Ok_0;
            lemma_parse_in_context(ts, pre, post, pos, floor, lhs, 1);
            lemma_parse_in_context(ts, pre, post, p, floor, first, 0);
        }
    } else if which == 1 {
        if parse_operand(ts, pos) is Ok {
            match ts[pos] {
                Lexeme::Operator(Operation::Subtract) => {
                    lemma_parse_in_context(ts, pre, post, pos + 1, negation_power(), lhs, 2);
                },
                Lexeme::Delimiter(m) => {
                    let (e, p) = parse_declaration(ts, pos + 1)->Ok_0;
                    lemma_parse_advances(ts, pos + 1, 0, 3);
                    lemma_parse_in_context(ts, pre, post, pos + 1, 0, lhs, 3);
                    assert(closes_group(all, p + k, m));
                },
                _ => {},
            }
        }
    } else {
        if parse_operators(ts, pos, lhs, floor) is Ok {
            if continues(ts, pos, floor) {
                assert(continues(all, pos + k, floor));
                let op = ts[pos]->Operator_0;
                let (rhs, p) = parse_expression(ts, pos + 1, binding_power(op) + 1)->Ok_0;
                lemma_parse_in_context(ts, pre, post, pos + 1, binding_power(op) + 1, lhs, 2);
                lemma_parse_in_context(
                    ts,
                    pre,
                    post,
                    p,
                    floor,
                    Expr::Binary(op, Box::new(lhs), Box::new(rhs)),
                    0,
                );
            } else {
                assert(!continues(all, pos + k, floor));
            }
        }
    }
}

/// Whether every group of `ts` is closed by its own family, and nothing else
/// is closed.
pub open spec fn balanced(ts: Seq<Lexeme>) -> bool {
    scopes(ts, 0, ts.len() as int, Seq::empty()) == Ok::<Seq<ScopeMarker>, int>(Seq::empty())
}

/// The open groups after a range of tokens are those after its second part,
/// given those after its first part.
proof fn lemma_scopes_split(ts: Seq<Lexeme>, from: int, mid: int, to: int, base: Seq<ScopeMarker>)
    requires
        from <= mid <= to,
    ensures
        scopes(ts, from, to, base) == match scopes(ts, from, mid, base) {
            Err(i) => Err::<Seq<ScopeMarker>, int>(i),
            Ok(open) => scopes(ts, mid, to, open),
        },
    decreases to - mid,
{
    if mid < to {
        lemma_scopes_split(ts, from, mid, to - 1, base);
    }
}

/// The open groups after a range of tokens do not depend on what stands
/// before and after the sequence; a mismatch moves with the sequence.
proof fn lemma_scopes_shift(
    ts: Seq<Lexeme>,
    pre: Seq<Lexeme>,
    post: Seq<Lexeme>,
    a: int,
    b: int,
    base: Seq<ScopeMarker>,
)
    requires
        0 <= a <= b <= ts.len(),
    ensures
        scopes(pre + ts + post, a + pre.len(), b + pre.len(), base) == match scopes(
            ts,
            a,
            b,
            base,
        ) {
            Err(i) => Err::<Seq<ScopeMarker>, int>(i + pre.len()),
            Ok(open) => Ok(open),
        },
    decreases b - a,
{
    if a < b {
        lemma_scopes_shift(ts, pre, post, a, b - 1, base);
        assert((pre + ts + post)[b - 1 + pre.len()] == ts[b - 1]);
    }
}

/// Groups that are open before a range of tokens stay open under those that
/// the range opens, where the range closes none but its own.
proof fn lemma_scopes_base(ts: Seq<Lexeme>, a: int, b: int, base: Seq<ScopeMarker>)
    requires
        scopes(ts, a, b, Seq::empty()) is Ok,
    ensures
        scopes(ts, a, b, base) == Ok::<Seq<ScopeMarker>, int>(
            base + scopes(ts, a, b, Seq::empty())->Ok_0,
        ),
    decreases b - a,
{
    let none = Seq::<ScopeMarker>::empty();
    if a < b {
        lemma_scopes_base(ts, a, b - 1, base);
        let open = scopes(ts, a, b - 1, none)->Ok_0;
        let next = scope_step(open, ts[b - 1])->0;
        assert(scope_step(base + open, ts[b - 1]) == Some(base + next)) by {
            match ts[b - 1] {
                Lexeme::Delimiter(m) => {
                    if m.opens() {
                        assert((base + open).push(m) =~= base + open.push(m));
                    } else if m.closes() {
                        assert((base + open).last() == open.last());
                        assert((base + open).drop_last() =~= base + open.drop_last());
                    }
                },
                _ => {},
            }
        }
    } else {
        assert(base + none =~= base);
    }
}

/// Two ranges that close what they open do so together.
proof fn lemma_scopes_join(ts: Seq<Lexeme>, from: int, mid: int, to: int)
    requires
        from <= mid <= to,
        scopes(ts, from, mid, Seq::empty()) == Ok::<Seq<ScopeMarker>, int>(Seq::empty()),
        scopes(ts, mid, to, Seq::empty()) == Ok::<Seq<ScopeMarker>, int>(Seq::empty()),
    ensures
        scopes(ts, from, to, Seq::empty()) == Ok::<Seq<ScopeMarker>, int>(Seq::empty()),
{
    lemma_scopes_split(ts, from, mid, to, Seq::empty());
}

/// One token that is no delimiter opens and closes nothing.
proof fn lemma_scopes_plain(ts: Seq<Lexeme>, pos: int)
    requires
        0 <= pos < ts.len(),
        !(ts[pos] is Delimiter),
    ensures
        scopes(ts, pos, pos + 1, Seq::empty()) == Ok::<Seq<ScopeMarker>, int>(Seq::empty()),
{
    assert(scopes(ts, pos, pos, Seq::empty()) == Ok::<Seq<ScopeMarker>, int>(Seq::empty()));
}

/// What the grammar reads as one construct closes every group that it opens
/// and no other.
///
/// `which` selects the construct: 3 a declaration, 2 an expression, 1 an
/// operand, 0 the operators after the operand `lhs`.
pub proof fn lemma_construct_is_balanced(
    ts: Seq<Lexeme>,
    pos: int,
    floor: nat,
    lhs: Expr,
    which: int,
)
    requires
        0 <= pos <= ts.len(),
        0 <= which <= 3,
    ensures
        which == 3 ==> (parse_declaration(ts, pos) matches Ok((_, p)) ==> scopes(
            ts,
            pos,
            p,
            Seq::empty(),
        ) == Ok::<Seq<ScopeMarker>, int>(Seq::empty())),
        which == 2 ==> (parse_expression(ts, pos, floor) matches Ok((_, p)) ==> scopes(
            ts,
            pos,
            p,
            Seq::empty(),
        ) == Ok::<Seq<ScopeMarker>, int>(Seq::empty())),
        which == 1 ==> (parse_operand(ts, pos) matches Ok((_, p)) ==> scopes(
            ts,
            pos,
            p,
            Seq::empty(),
        ) == Ok::<Seq<ScopeMarker>, int>(Seq::empty())),
        which == 0 ==> (parse_operators(ts, pos, lhs, floor) matches Ok((_, p)) ==> scopes(
            ts,
            pos,
            p,
            Seq::empty(),
        ) == Ok::<Seq<ScopeMarker>, int>(Seq::empty())),
    decreases ts.len() - pos, which,
{
    let none = Seq::<ScopeMarker>::empty();
    if which == 3 {
        if let Ok((_, q)) = parse_declaration(ts, pos) {
            if starts_binding(ts, pos) {
                let (bound, p) = parse_expression(ts, pos + 3, 0)->Ok_0;
                lemma_parse_advances(ts, pos + 3, 0, 2);
                lemma_parse_advances(ts, p + 1, 0, 3);
                lemma_scopes_plain(ts, pos);
                lemma_scopes_plain(ts, pos + 1);
                lemma_scopes_plain(ts, pos + 2);
                lemma_scopes_join(ts, pos, pos + 1, pos + 2);
                lemma_scopes_join(ts, pos, pos + 2, pos + 3);
                lemma_construct_is_balanced(ts, pos + 3, 0, lhs, 2);
                lemma_scopes_join(ts, pos, pos + 3, p);
                lemma_scopes_plain(ts, p);
                lemma_scopes_join(ts, pos, p, p + 1);
                lemma_construct_is_balanced(ts, p + 1, 0, lhs, 3);
                lemma_scopes_join(ts, pos, p + 1, q);
            } else {
                lemma_construct_is_balanced(ts, pos, 0, lhs, 2);
            }
        }
    } else if which == 2 {
        if let Ok((_, q)) = parse_expression(ts, pos, floor) {
            let (first, p) = parse_operand(ts, pos)->Ok_0;
            lemma_operators_advance(ts, p, first, floor);
            lemma_construct_is_balanced(ts, pos, floor, lhs, 1);
            lemma_construct_is_balanced(ts, p, floor, first, 0);
            lemma_scopes_join(ts, pos, p, q);
        }
    } else if which == 1 {
        if let Ok((_, q)) = parse_operand(ts, pos) {
            match ts[pos] {
                Lexeme::Operator(Operation::Subtract) => {
                    lemma_parse_advances(ts, pos + 1, negation_power(), 2);
                    lemma_scopes_plain(ts, pos);
                    lemma_construct_is_balanced(ts, pos + 1, negation_power(), lhs, 2);
                    lemma_scopes_join(ts, pos, pos + 1, q);
                },
                Lexeme::Delimiter(m) => {
                    let (e, p) = parse_declaration(ts, pos + 1)->Ok_0;
                    lemma_parse_advances(ts, pos + 1, 0, 3);
                    lemma_construct_is_balanced(ts, pos + 1, 0, lhs, 3);
                    let inside = seq![m];
                    assert(scopes(ts, pos, pos, none) == Ok::<Seq<ScopeMarker>, int>(none));
                    assert(none.push(m) =~= inside);
                    assert(scopes(ts, pos, pos + 1, none) == Ok::<Seq<ScopeMarker>, int>(inside));
                    lemma_scopes_base(ts, pos + 1, p, inside);
                    assert(inside + none =~= inside);
                    lemma_scopes_split(ts, pos, pos + 1, p, none);
                    assert(scopes(ts, pos, p, none) == Ok::<Seq<ScopeMarker>, int>(inside));
                    assert(inside.drop_last() =~= none);
                    assert(scopes(ts, pos, p + 1, none) == Ok::<Seq<ScopeMarker>, int>(none));
                },
                _ => {
                    lemma_scopes_plain(ts, pos);
                },
            }
        }
    } else {
        if let Ok((_, q)) = parse_operators(ts, pos, lhs, floor) {
            if continues(ts, pos, floor) {
                let op = ts[pos]->Operator_0;
                let (rhs, p) = parse_expression(ts, pos + 1, binding_power(op) + 1)->Ok_0;
                lemma_operators_advance(
                    ts,
                    p,
                    Expr::Binary(op, Box::new(lhs), Box::new(rhs)),
                    floor,
                );
                lemma_scopes_plain(ts, pos);
                lemma_construct_is_balanced(ts, pos + 1, binding_power(op) + 1, lhs, 2);
                lemma_scopes_join(ts, pos, pos + 1, p);
                lemma_construct_is_balanced(
                    ts,
                    p,
                    floor,
                    Expr::Binary(op, Box::new(lhs), Box::new(rhs)),
                    0,
                );
                lemma_scopes_join(ts, pos, p, q);
            }
        }
    }
}

/// A sequence whose structure is an expression has matching delimiters, so
/// that it parses to what its structure gives.
pub proof fn lemma_structure_is_balanced(ts: Seq<Lexeme>)
    requires
        structure(ts) is Ok,
    ensures
        balanced(ts),
        parse(ts) == structure(ts),
{
    lemma_construct_is_balanced(ts, 0, 0, Expr::Val(0), 3);
}

/// The open groups after a balanced sequence between an opening delimiter
/// and any token: the one that the delimiter opened.
proof fn lemma_scopes_inside_group(ts: Seq<Lexeme>, open: ScopeMarker, last: Lexeme)
    requires
        balanced(ts),
        open.opens(),
    ensures
        scopes(
            seq![Lexeme::Delimiter(open)] + ts + seq![last],
            0,
            ts.len() as int + 1,
            Seq::empty(),
        ) == Ok::<Seq<ScopeMarker>, int>(seq![open]),
{
    let none = Seq::<ScopeMarker>::empty();
    let all = seq![Lexeme::Delimiter(open)] + ts + seq![last];
    let inside = seq![open];
    let n = ts.len() as int;
    assert(all[0] == Lexeme::Delimiter(open));
    assert(scopes(all, 0, 0, none) == Ok::<Seq<ScopeMarker>, int>(none));
    assert(none.push(open) =~= inside);
    assert(scopes(all, 0, 1, none) == Ok::<Seq<ScopeMarker>, int>(inside));
    lemma_scopes_base(ts, 0, n, inside);
    assert(inside + none =~= inside);
    lemma_scopes_shift(ts, seq![Lexeme::Delimiter(open)], seq![last], 0, n, inside);
    lemma_scopes_split(all, 0, 1, n + 1, none);
}

/// `ts` between an opening and a closing delimiter.
pub open spec fn grouped(open: ScopeMarker, ts: Seq<Lexeme>, close: ScopeMarker) -> Seq<Lexeme> {
    seq![Lexeme::Delimiter(open)] + ts + seq![Lexeme::Delimiter(close)]
}

/// What an operand that is a group around `ts` is read as, wherever the group
/// stands: the tree of `ts`, up to after the closing delimiter.
proof fn lemma_group_operand(
    ts: Seq<Lexeme>,
    open: ScopeMarker,
    close: ScopeMarker,
    pre: Seq<Lexeme>,
    post: Seq<Lexeme>,
)
    requires
        parse(ts) is Ok,
        open.opens(),
        open.pairs_with(close),
    ensures
        parse_operand(pre + grouped(open, ts, close) + post, pre.len() as int) == Ok::<
            (Expr, int),
            ParseError,
        >((parse(ts)->Ok_0, (pre.len() + ts.len() + 2) as int)),
{
    let all = pre + grouped(open, ts, close) + post;
    let before = pre + seq![Lexeme::Delimiter(open)];
    let after = seq![Lexeme::Delimiter(close)] + post;
    assert(all =~= before + ts + after);
    let k = pre.len() as int;
    assert(all[k] == Lexeme::Delimiter(open));
    assert(all[k + 1 + ts.len()] == Lexeme::Delimiter(close));
    lemma_parse_in_context(ts, before, after, 0, 0, Expr::Val(0), 3);
    assert(parse_declaration(all, k + 1) == moved(parse_declaration(ts, 0), k + 1));
}

/// Redundant grouping is transparent: a sequence that parses still parses
/// between a pair of matching delimiters, to the same tree.
pub proof fn lemma_grouping_is_transparent(ts: Seq<Lexeme>, open: ScopeMarker, close: ScopeMarker)
    requires
        parse(ts) is Ok,
        open.opens(),
        open.pairs_with(close),
    ensures
        parse(grouped(open, ts, close)) == parse(ts),
{
    let all = grouped(open, ts, close);
    let none = Seq::<Lexeme>::empty();
    assert(all =~= none + all + none);
    lemma_group_operand(ts, open, close, none, none);
    let e = parse(ts)->Ok_0;
    let end = ts.len() as int + 2;
    assert(parse_operand(all, 0) == Ok::<(Expr, int), ParseError>((e, end)));
    assert(parse_operators(all, end, e, 0) == Ok::<(Expr, int), ParseError>((e, end)));
    assert(parse_expression(all, 0, 0) == Ok::<(Expr, int), ParseError>((e, end)));
    assert(!starts_binding(all, 0));
    assert(structure(all) == Ok::<Expr, ParseError>(e));
    lemma_structure_is_balanced(all);
}

/// Mismatched delimiter families are rejected: a sequence that parses,
/// between an opening delimiter and a closing delimiter of another family, is
/// a mismatched scope at the closing delimiter.
pub proof fn lemma_mismatched_group_is_rejected(
    ts: Seq<Lexeme>,
    open: ScopeMarker,
    close: ScopeMarker,
)
    requires
        parse(ts) is Ok,
        open.opens(),
        close.closes(),
        !open.pairs_with(close),
    ensures
        parse(grouped(open, ts, close)) == Err::<Expr, ParseError>(
            ParseError::MismatchedScope((ts.len() + 1) as usize),
        ),
{
    let all = grouped(open, ts, close);
    let n = ts.len() as int;
    lemma_structure_is_balanced(ts);
    lemma_scopes_inside_group(ts, open, Lexeme::Delimiter(close));
    assert(all[n + 1] == Lexeme::Delimiter(close));
    assert(all.len() == n + 2);
    assert(scopes(all, 0, n + 2, Seq::empty()) == Err::<Seq<ScopeMarker>, int>(n + 1));
}

/// A closing delimiter that closes nothing is a mismatched scope, whatever
/// else the sequence holds: where the tokens before it close what they open
/// and leave open either nothing or a group of another family.
pub proof fn lemma_stray_closer_is_mismatched(
    ts: Seq<Lexeme>,
    at: int,
    open: Seq<ScopeMarker>,
    close: ScopeMarker,
)
    requires
        0 <= at < ts.len(),
        scopes(ts, 0, at, Seq::empty()) == Ok::<Seq<ScopeMarker>, int>(open),
        ts[at] == Lexeme::Delimiter(close),
        close.closes(),
        open.len() == 0 || !open.last().pairs_with(close),
    ensures
        parse(ts) == Err::<Expr, ParseError>(ParseError::MismatchedScope(at as usize)),
{
    assert(scopes(ts, 0, at + 1, Seq::empty()) == Err::<Seq<ScopeMarker>, int>(at));
    lemma_mismatch_is_first(ts, at, ts.len() as int);
}

/// An operand where an operator had to stand makes the expression
/// incomplete: a sequence that parses, followed by a token that starts an
/// operand and by a sequence that leaves the delimiters matched, has a
/// missing operator.
pub proof fn lemma_missing_operator(ts: Seq<Lexeme>, next: Lexeme, rest: Seq<Lexeme>)
    requires
        parse(ts) is Ok,
        starts_operand(next),
        first_mismatch(ts + seq![next] + rest) is None,
    ensures
        parse(ts + seq![next] + rest) == Err::<Expr, ParseError>(
            ParseError::IncompleteExpression,
        ),
{
    let all = ts + seq![next] + rest;
    let none = Seq::<Lexeme>::empty();
    assert(all =~= none + ts + (seq![next] + rest));
    assert((seq![next] + rest)[0] == next);
    lemma_parse_in_context(ts, none, seq![next] + rest, 0, 0, Expr::Val(0), 3);
    assert(all[ts.len() as int] == next);
}

/// `( ts ) + ( ts )`.
pub open spec fn doubled(ts: Seq<Lexeme>) -> Seq<Lexeme> {
    grouped(ScopeMarker::OpenParenthesis, ts, ScopeMarker::CloseParenthesis) + seq![
        Lexeme::Operator(Operation::Add),
    ] + grouped(ScopeMarker::OpenParenthesis, ts, ScopeMarker::CloseParenthesis)
}

/// Doubling keeps parsing: where `ts` parses to a tree, `( ts ) + ( ts )`
/// parses to the sum of that tree and itself.
pub proof fn lemma_doubling(ts: Seq<Lexeme>)
    requires
        parse(ts) is Ok,
    ensures
        parse(doubled(ts)) == Ok::<Expr, ParseError>(
            Expr::Binary(
                Operation::Add,
                Box::new(parse(ts)->Ok_0),
                Box::new(parse(ts)->Ok_0),
            ),
        ),
{
    let open = ScopeMarker::OpenParenthesis;
    let close = ScopeMarker::CloseParenthesis;
    let group = grouped(open, ts, close);
    let plus = seq![Lexeme::Operator(Operation::Add)];
    let all = doubled(ts);
    let none = Seq::<Lexeme>::empty();
    let e = parse(ts)->Ok_0;
    let n = ts.len() as int;
    let sum = Expr::Binary(Operation::Add, Box::new(e), Box::new(e));
    assert(all =~= none + group + (plus + group));
    lemma_group_operand(ts, open, close, none, plus + group);
    assert(all =~= (group + plus) + group + none);
    lemma_group_operand(ts, open, close, group + plus, none);
    assert(all.len() == 2 * n + 5);
    assert(all[n + 2] == Lexeme::Operator(Operation::Add));
    assert(parse_operand(all, 0) == Ok::<(Expr, int), ParseError>((e, n + 2)));
    assert(parse_operand(all, n + 3) == Ok::<(Expr, int), ParseError>((e, 2 * n + 5)));
    assert(parse_operators(all, 2 * n + 5, e, 2) == Ok::<(Expr, int), ParseError>(
        (e, 2 * n + 5),
    ));
    assert(parse_expression(all, n + 3, 2) == Ok::<(Expr, int), ParseError>((e, 2 * n + 5)));
    assert(parse_operators(all, 2 * n + 5, sum, 0) == Ok::<(Expr, int), ParseError>(
        (sum, 2 * n + 5),
    ));
    assert(continues(all, n + 2, 0));
    assert(parse_operators(all, n + 2, e, 0) == Ok::<(Expr, int), ParseError>(
        (sum, 2 * n + 5),
    ));
    assert(parse_expression(all, 0, 0) == Ok::<(Expr, int), ParseError>((sum, 2 * n + 5)));
    assert(!starts_binding(all, 0));
    assert(structure(all) == Ok::<Expr, ParseError>(sum));
    lemma_structure_is_balanced(all);
}

/// An operand that is closed in itself: a number, a variable, or a group
/// around a sequence that parses.
pub enum Atom {
    Number(int),
    Variable(Seq<char>),
    Group(ScopeMarker, Seq<Lexeme>, ScopeMarker),
}

impl Atom {
    /// A variable is not named `let`; a group has matching delimiters around
    /// a sequence that parses.
    pub open spec fn valid(self) -> bool {
        match self {
            Atom::Number(_) => true,
            Atom::Variable(name) => !is_let(name),
            Atom::Group(open, ts, close) => open.opens() && open.pairs_with(close) && parse(
                ts,
            ) is Ok,
        }
    }

    /// The tokens of the operand.
    pub open spec fn tokens(self) -> Seq<Lexeme> {
        match self {
            Atom::Number(n) => seq![Lexeme::Number(n)],
            Atom::Variable(name) => seq![Lexeme::Identifier(name)],
            Atom::Group(open, ts, close) => grouped(open, ts, close),
        }
    }

    /// The tree of the operand.
    pub open spec fn tree(self) -> Expr {
        match self {
            Atom::Number(n) => Expr::Val(n),
            Atom::Variable(name) => Expr::Var(name),
            Atom::Group(_, ts, _) => parse(ts)->Ok_0,
        }
    }
}

/// An atom is read as the same operand wherever it stands.
pub proof fn lemma_atom_operand(a: Atom, pre: Seq<Lexeme>, post: Seq<Lexeme>)
    requires
        a.valid(),
    ensures
        parse_operand(pre + a.tokens() + post, pre.len() as int) == Ok::<(Expr, int), ParseError>(
            (a.tree(), (pre.len() + a.tokens().len()) as int),
        ),
        !starts_binding(pre + a.tokens() + post, pre.len() as int),
{
    let all = pre + a.tokens() + post;
    assert(all[pre.len() as int] == a.tokens()[0]);
    match a {
        Atom::Group(open, ts, close) => {
            lemma_group_operand(ts, open, close, pre, post);
        },
        _ => {},
    }
}

/// The sequence `a first_op b second_op c`.
pub open spec fn chain(
    a: Atom,
    first_op: Operation,
    b: Atom,
    second_op: Operation,
    c: Atom,
) -> Seq<Lexeme> {
    a.tokens() + seq![Lexeme::Operator(first_op)] + b.tokens() + seq![
        Lexeme::Operator(second_op),
    ] + c.tokens()
}

/// Precedence and associativity: in `a first_op b second_op c` the first
/// operator takes `a` and `b` unless the second binds more tightly, in which
/// case the second takes `b` and `c` first. Operators of equal power group to
/// the left.
pub proof fn lemma_precedence(
    a: Atom,
    first_op: Operation,
    b: Atom,
    second_op: Operation,
    c: Atom,
)
    requires
        a.valid(),
        b.valid(),
        c.valid(),
    ensures
        parse(chain(a, first_op, b, second_op, c)) == Ok::<Expr, ParseError>(
            if binding_power(first_op) >= binding_power(second_op) {
                Expr::Binary(
                    second_op,
                    Box::new(Expr::Binary(first_op, Box::new(a.tree()), Box::new(b.tree()))),
                    Box::new(c.tree()),
                )
            } else {
                Expr::Binary(
                    first_op,
                    Box::new(a.tree()),
                    Box::new(Expr::Binary(second_op, Box::new(b.tree()), Box::new(c.tree()))),
                )
            },
        ),
{
    let all = chain(a, first_op, b, second_op, c);
    let none = Seq::<Lexeme>::empty();
    let first = seq![Lexeme::Operator(first_op)];
    let second = seq![Lexeme::Operator(second_op)];
    let pa = a.tokens().len() as int;
    let pb = pa + 1 + b.tokens().len();
    let end = pb + 1 + c.tokens().len();
    let first_power = binding_power(first_op);
    let second_power = binding_power(second_op);
    assert(all =~= none + a.tokens() + (first + b.tokens() + second + c.tokens()));
    lemma_atom_operand(a, none, first + b.tokens() + second + c.tokens());
    assert(all =~= (a.tokens() + first) + b.tokens() + (second + c.tokens()));
    lemma_atom_operand(b, a.tokens() + first, second + c.tokens());
    assert(all =~= (a.tokens() + first + b.tokens() + second) + c.tokens() + none);
    lemma_atom_operand(c, a.tokens() + first + b.tokens() + second, none);
    assert(all.len() == end);
    assert(all[pa] == Lexeme::Operator(first_op));
    assert(all[pb] == Lexeme::Operator(second_op));
    assert(parse_operand(all, 0) == Ok::<(Expr, int), ParseError>((a.tree(), pa)));
    assert(parse_operand(all, pa + 1) == Ok::<(Expr, int), ParseError>((b.tree(), pb)));
    assert(parse_operand(all, pb + 1) == Ok::<(Expr, int), ParseError>((c.tree(), end)));
    let ab = Expr::Binary(first_op, Box::new(a.tree()), Box::new(b.tree()));
    let bc = Expr::Binary(second_op, Box::new(b.tree()), Box::new(c.tree()));
    assert(parse_operators(all, end, c.tree(), second_power + 1) == Ok::<(Expr, int), ParseError>(
        (c.tree(), end),
    ));
    assert(parse_expression(all, pb + 1, second_power + 1) == Ok::<(Expr, int), ParseError>(
        (c.tree(), end),
    ));
    if first_power >= second_power {
        let whole = Expr::Binary(second_op, Box::new(ab), Box::new(c.tree()));
        assert(!continues(all, pb, first_power + 1));
        assert(parse_operators(all, pb, b.tree(), first_power + 1) == Ok::<(Expr, int), ParseError>(
            (b.tree(), pb),
        ));
        assert(parse_expression(all, pa + 1, first_power + 1) == Ok::<(Expr, int), ParseError>(
            (b.tree(), pb),
        ));
        assert(parse_operators(all, end, whole, 0) == Ok::<(Expr, int), ParseError>(
            (whole, end),
        ));
        assert(continues(all, pb, 0));
        assert(parse_operators(all, pb, ab, 0) == Ok::<(Expr, int), ParseError>((whole, end)));
        assert(continues(all, pa, 0));
        assert(parse_operators(all, pa, a.tree(), 0) == Ok::<(Expr, int), ParseError>(
            (whole, end),
        ));
        assert(parse_expression(all, 0, 0) == Ok::<(Expr, int), ParseError>((whole, end)));
        assert(structure(all) == Ok::<Expr, ParseError>(whole));
    } else {
        let whole = Expr::Binary(first_op, Box::new(a.tree()), Box::new(bc));
        assert(parse_operators(all, end, bc, first_power + 1) == Ok::<(Expr, int), ParseError>(
            (bc, end),
        ));
        assert(continues(all, pb, first_power + 1));
        assert(parse_operators(all, pb, b.tree(), first_power + 1) == Ok::<(Expr, int), ParseError>(
            (bc, end),
        ));
        assert(parse_expression(all, pa + 1, first_power + 1) == Ok::<(Expr, int), ParseError>(
            (bc, end),
        ));
        assert(parse_operators(all, end, whole, 0) == Ok::<(Expr, int), ParseError>(
            (whole, end),
        ));
        assert(continues(all, pa, 0));
        assert(parse_operators(all, pa, a.tree(), 0) == Ok::<(Expr, int), ParseError>(
            (whole, end),
        ));
        assert(parse_expression(all, 0, 0) == Ok::<(Expr, int), ParseError>((whole, end)));
        assert(structure(all) == Ok::<Expr, ParseError>(whole));
    }
    lemma_structure_is_balanced(all);
}

/// The sequence `- a op b`.
pub open spec fn negated_chain(a: Atom, op: Operation, b: Atom) -> Seq<Lexeme> {
    seq![Lexeme::Operator(Operation::Subtract)] + a.tokens() + seq![Lexeme::Operator(op)]
        + b.tokens()
}

/// Unary `-` binds more tightly than `+` and `-` and less tightly than `*`,
/// `/` and `^`: `- a op b` negates `a op b` for these three and `a` alone for
/// those two.
pub proof fn lemma_negation_precedence(a: Atom, op: Operation, b: Atom)
    requires
        a.valid(),
        b.valid(),
    ensures
        parse(negated_chain(a, op, b)) == Ok::<Expr, ParseError>(
            if binding_power(op) >= negation_power() {
                Expr::negated(Expr::Binary(op, Box::new(a.tree()), Box::new(b.tree())))
            } else {
                Expr::Binary(op, Box::new(Expr::negated(a.tree())), Box::new(b.tree()))
            },
        ),
{
    let all = negated_chain(a, op, b);
    let none = Seq::<Lexeme>::empty();
    let minus = seq![Lexeme::Operator(Operation::Subtract)];
    let middle = seq![Lexeme::Operator(op)];
    let pa = 1 + a.tokens().len() as int;
    let end = pa + 1 + b.tokens().len();
    let p = binding_power(op);
    assert(all =~= minus + a.tokens() + (middle + b.tokens()));
    lemma_atom_operand(a, minus, middle + b.tokens());
    assert(all =~= (minus + a.tokens() + middle) + b.tokens() + none);
    lemma_atom_operand(b, minus + a.tokens() + middle, none);
    assert(all.len() == end);
    assert(all[0] == Lexeme::Operator(Operation::Subtract));
    assert(all[pa] == Lexeme::Operator(op));
    assert(parse_operand(all, 1) == Ok::<(Expr, int), ParseError>((a.tree(), pa)));
    assert(parse_operand(all, pa + 1) == Ok::<(Expr, int), ParseError>((b.tree(), end)));
    assert(parse_operators(all, end, b.tree(), p + 1) == Ok::<(Expr, int), ParseError>(
        (b.tree(), end),
    ));
    assert(parse_expression(all, pa + 1, p + 1) == Ok::<(Expr, int), ParseError>(
        (b.tree(), end),
    ));
    let ab = Expr::Binary(op, Box::new(a.tree()), Box::new(b.tree()));
    assert(!starts_binding(all, 0));
    if p >= negation_power() {
        let whole = Expr::negated(ab);
        assert(parse_operators(all, end, ab, negation_power()) == Ok::<(Expr, int), ParseError>(
            (ab, end),
        ));
        assert(continues(all, pa, negation_power()));
        assert(parse_operators(all, pa, a.tree(), negation_power()) == Ok::<
            (Expr, int),
            ParseError,
        >((ab, end)));
        assert(parse_expression(all, 1, negation_power()) == Ok::<(Expr, int), ParseError>(
            (ab, end),
        ));
        assert(parse_operand(all, 0) == Ok::<(Expr, int), ParseError>((whole, end)));
        assert(parse_operators(all, end, whole, 0) == Ok::<(Expr, int), ParseError>(
            (whole, end),
        ));
        assert(parse_expression(all, 0, 0) == Ok::<(Expr, int), ParseError>((whole, end)));
        assert(structure(all) == Ok::<Expr, ParseError>(whole));
    } else {
        let na = Expr::negated(a.tree());
        let whole = Expr::Binary(op, Box::new(na), Box::new(b.tree()));
        assert(!continues(all, pa, negation_power()));
        assert(parse_operators(all, pa, a.tree(), negation_power()) == Ok::<
            (Expr, int),
            ParseError,
        >((a.tree(), pa)));
        assert(parse_expression(all, 1, negation_power()) == Ok::<(Expr, int), ParseError>(
            (a.tree(), pa),
        ));
        assert(parse_operand(all, 0) == Ok::<(Expr, int), ParseError>((na, pa)));
        assert(parse_operators(all, end, whole, 0) == Ok::<(Expr, int), ParseError>(
            (whole, end),
        ));
        assert(continues(all, pa, 0));
        assert(parse_operators(all, pa, na, 0) == Ok::<(Expr, int), ParseError>((whole, end)));
        assert(parse_expression(all, 0, 0) == Ok::<(Expr, int), ParseError>((whole, end)));
        assert(structure(all) == Ok::<Expr, ParseError>(whole));
    }
    lemma_structure_is_balanced(all);
}

/// The text `( src )`.
pub open spec fn grouped_text(src: Seq<char>) -> Seq<char> {
    seq!['('] + src + seq![')']
}

/// The text `( src ) + ( src )`.
pub open spec fn doubled_text(src: Seq<char>) -> Seq<char> {
    seq!['('] + src + seq![')', ' ', '+', ' ', '('] + src + seq![')']
}

/// The tokens of the three pieces of text that doubling adds.
proof fn lemma_lex_pieces()
    ensures
        lex(seq!['(']) == Ok::<Seq<Lexeme>, LexError>(
            seq![Lexeme::Delimiter(ScopeMarker::OpenParenthesis)],
        ),
        lex(seq![')']) == Ok::<Seq<Lexeme>, LexError>(
            seq![Lexeme::Delimiter(ScopeMarker::CloseParenthesis)],
        ),
        lex(seq![')', ' ', '+', ' ', '(']) == Ok::<Seq<Lexeme>, LexError>(
            seq![
                Lexeme::Delimiter(ScopeMarker::CloseParenthesis),
                Lexeme::Operator(Operation::Add),
                Lexeme::Delimiter(ScopeMarker::OpenParenthesis),
            ],
        ),
{
    reveal_with_fuel(lex_from, 7);
    let open = seq!['('];
    let close = seq![')'];
    let middle = seq![')', ' ', '+', ' ', '('];
    assert(lex(open)->Ok_0 =~= seq![Lexeme::Delimiter(ScopeMarker::OpenParenthesis)]);
    assert(lex(close)->Ok_0 =~= seq![Lexeme::Delimiter(ScopeMarker::CloseParenthesis)]);
    assert(lex(middle)->Ok_0 =~= seq![
        Lexeme::Delimiter(ScopeMarker::CloseParenthesis),
        Lexeme::Operator(Operation::Add),
        Lexeme::Delimiter(ScopeMarker::OpenParenthesis),
    ]);
}

/// Redundant grouping is transparent in the text too: where `src` denotes an
/// expression, `( src )` denotes the same.
pub proof fn lemma_grouping_text(src: Seq<char>)
    requires
        expression_of(src) is Ok,
    ensures
        expression_of(grouped_text(src)) == expression_of(src),
{
    let ts = lex(src)->Ok_0;
    lemma_lex_pieces();
    lemma_lex_concat(src, seq![')']);
    lemma_lex_concat(seq!['('], src + seq![')']);
    assert(grouped_text(src) =~= seq!['('] + (src + seq![')']));
    assert(lex(grouped_text(src))->Ok_0 =~= grouped(
        ScopeMarker::OpenParenthesis,
        ts,
        ScopeMarker::CloseParenthesis,
    ));
    lemma_grouping_is_transparent(ts, ScopeMarker::OpenParenthesis, ScopeMarker::CloseParenthesis);
}

/// Doubling keeps parsing: where `src` denotes an expression,
/// `( src ) + ( src )` denotes the sum of that expression and itself.
pub proof fn lemma_doubling_text(src: Seq<char>)
    requires
        expression_of(src) is Ok,
    ensures
        expression_of(doubled_text(src)) == Ok::<Expr, ParseError>(
            Expr::Binary(
                Operation::Add,
                Box::new(expression_of(src)->Ok_0),
                Box::new(expression_of(src)->Ok_0),
            ),
        ),
{
    let ts = lex(src)->Ok_0;
    let open = seq!['('];
    let close = seq![')'];
    let middle = seq![')', ' ', '+', ' ', '('];
    lemma_lex_pieces();
    lemma_lex_concat(src, close);
    lemma_lex_concat(middle, src + close);
    lemma_lex_concat(src, middle + (src + close));
    lemma_lex_concat(open, src + (middle + (src + close)));
    assert(doubled_text(src) =~= open + (src + (middle + (src + close))));
    assert(lex(doubled_text(src))->Ok_0 =~= doubled(ts));
    lemma_doubling(ts);
}

/// Whether no token of `ts` is a name.
pub open spec fn names_nothing(ts: Seq<Lexeme>) -> bool {
    forall|i: int| 0 <= i < ts.len() ==> !(#[trigger] ts[i] is Identifier)
}

/// Whether a tree holds literals and operators only: no variable and no
/// binding.
pub open spec fn is_constant(e: Expr) -> bool
    decreases e,
{
    match e {
        Expr::Val(_) => true,
        Expr::Var(_) => false,
        Expr::Binary(_, l, r) => is_constant(*l) && is_constant(*r),
        Expr::Let(_, _, _) => false,
    }
}

/// What the grammar reads from tokens that name nothing holds literals and
/// operators only.
///
/// `which` selects the construct: 3 a declaration, 2 an expression, 1 an
/// operand, 0 the operators after the operand `lhs`.
proof fn lemma_construct_is_constant(
    ts: Seq<Lexeme>,
    pos: int,
    floor: nat,
    lhs: Expr,
    which: int,
)
    requires
        names_nothing(ts),
        0 <= pos <= ts.len(),
        0 <= which <= 3,
        which == 0 ==> is_constant(lhs),
    ensures
        which == 3 ==> (parse_declaration(ts, pos) matches Ok((e, _)) ==> is_constant(e)),
        which == 2 ==> (parse_expression(ts, pos, floor) matches Ok((e, _)) ==> is_constant(e)),
        which == 1 ==> (parse_operand(ts, pos) matches Ok((e, _)) ==> is_constant(e)),
        which == 0 ==> (parse_operators(ts, pos, lhs, floor) matches Ok((e, _)) ==> is_constant(
            e,
        )),
    decreases ts.len() - pos, which,
{
    if which == 3 {
        if parse_declaration(ts, pos) is Ok {
            assert(!starts_binding(ts, pos));
            lemma_construct_is_constant(ts, pos, 0, lhs, 2);
        }
    } else if which == 2 {
        if parse_expression(ts, pos, floor) is Ok {
            let (first, p) = parse_operand(ts, pos)->Ok_0;
            lemma_construct_is_constant(ts, pos, floor, lhs, 1);
            lemma_construct_is_constant(ts, p, floor, first, 0);
        }
    } else if which == 1 {
        if parse_operand(ts, pos) is Ok {
            match ts[pos] {
                Lexeme::Operator(Operation::Subtract) => {
                    lemma_construct_is_constant(ts, pos + 1, negation_power(), lhs, 2);
                    let (e, _) = parse_expression(ts, pos + 1, negation_power())->Ok_0;
                    assert(is_constant(Expr::Val(0)));
                    assert(is_constant(Expr::negated(e)));
                },
                Lexeme::Delimiter(m) => {
                    lemma_construct_is_constant(ts, pos + 1, 0, lhs, 3);
                },
                _ => {},
            }
        }
    } else {
        if parse_operators(ts, pos, lhs, floor) is Ok {
            if continues(ts, pos, floor) {
                let op = ts[pos]->Operator_0;
                let (rhs, p) = parse_expression(ts, pos + 1, binding_power(op) + 1)->Ok_0;
                lemma_construct_is_constant(ts, pos + 1, binding_power(op) + 1, lhs, 2);
                lemma_construct_is_constant(
                    ts,
                    p,
                    floor,
                    Expr::Binary(op, Box::new(lhs), Box::new(rhs)),
                    0,
                );
            }
        }
    }
}

/// A tree of literals and operators resolves in every environment.
pub proof fn lemma_constant_resolves(e: Expr, names: Seq<Seq<char>>)
    requires
        is_constant(e),
    ensures
        resolution(e, names) is Ok,
    decreases e,
{
    match e {
        Expr::Binary(_, l, r) => {
            lemma_constant_resolves(*l, names);
            lemma_constant_resolves(*r, names);
        },
        _ => {},
    }
}

/// An expression of literals, operators and groups never fails to evaluate:
/// where the tokens name nothing and parse, the tree resolves in every
/// environment, so that its evaluation returns a value.
pub proof fn lemma_literal_expression_has_value(ts: Seq<Lexeme>, names: Seq<Seq<char>>)
    requires
        parse(ts) is Ok,
        names_nothing(ts),
    ensures
        is_constant(parse(ts)->Ok_0),
        resolution(parse(ts)->Ok_0, names) is Ok,
{
    lemma_construct_is_constant(ts, 0, 0, Expr::Val(0), 3);
    lemma_constant_resolves(parse(ts)->Ok_0, names);
}

/// Whether a tree can be written without bindings: it holds literals,
/// variables that are not named `let`, and operators.
pub open spec fn writable(e: Expr) -> bool
    decreases e,
{
    match e {
        Expr::Val(_) => true,
        Expr::Var(name) => !is_let(name),
        Expr::Binary(_, l, r) => writable(*l) && writable(*r),
        Expr::Let(_, _, _) => false,
    }
}

/// Whether `e` needs parentheses where operators that bind less tightly than
/// `floor` do not belong to the operand: where it is an operator node whose
/// operator binds less tightly than `floor`.
pub open spec fn needs_group(e: Expr, floor: nat) -> bool {
    e matches Expr::Binary(op, _, _) && binding_power(op) < floor
}

/// `e` as it is usually written where operators from `floor` on belong to the
/// operand: between parentheses only where it needs them.
pub open spec fn written(e: Expr, floor: nat) -> Seq<Lexeme>
    decreases e, 1int,
{
    if needs_group(e, floor) {
        grouped(ScopeMarker::OpenParenthesis, bare(e), ScopeMarker::CloseParenthesis)
    } else {
        bare(e)
    }
}

/// `e` as it is usually written, without parentheses around it: the left
/// operand of an operator stands in parentheses where its own operator binds
/// less tightly, the right operand where its own operator does not bind more
/// tightly.
pub open spec fn bare(e: Expr) -> Seq<Lexeme>
    decreases e, 0int,
{
    match e {
        Expr::Val(n) => seq![Lexeme::Number(n)],
        Expr::Var(name) => seq![Lexeme::Identifier(name)],
        Expr::Binary(op, l, r) => written(*l, binding_power(op)) + seq![Lexeme::Operator(op)]
            + written(*r, binding_power(op) + 1),
        Expr::Let(_, _, _) => Seq::empty(),
    }
}

/// Whether the tokens `post` may follow `e`, written without parentheses
/// around it, and leave it what it is: they do not start with an operator
/// that binds more tightly than the operator of `e`.
pub open spec fn may_follow_bare(e: Expr, post: Seq<Lexeme>) -> bool {
    post.len() > 0 ==> match post[0] {
        Lexeme::Operator(q) => e matches Expr::Binary(op, _, _) ==> binding_power(q)
            <= binding_power(op),
        _ => true,
    }
}

/// Whether the tokens `post` may follow `e`, written for `floor`, and leave
/// it what it is.
pub open spec fn may_follow(e: Expr, floor: nat, post: Seq<Lexeme>) -> bool {
    needs_group(e, floor) || may_follow_bare(e, post)
}

/// What is read where `e` stands written without parentheses around it: `e`,
/// and then the operators that follow it.
proof fn lemma_bare_is_read(e: Expr, floor: nat, pre: Seq<Lexeme>, post: Seq<Lexeme>)
    requires
        writable(e),
        e matches Expr::Binary(op, _, _) ==> floor <= binding_power(op),
        may_follow_bare(e, post),
    ensures
        bare(e).len() > 0,
        !starts_binding(pre + bare(e) + post, pre.len() as int),
        parse_expression(pre + bare(e) + post, pre.len() as int, floor) == parse_operators(
            pre + bare(e) + post,
            (pre.len() + bare(e).len()) as int,
            e,
            floor,
        ),
    decreases e, 0int,
{
    let all = pre + bare(e) + post;
    let k = pre.len() as int;
    match e {
        Expr::Binary(op, l, r) => {
            let power = binding_power(op);
            let left = written(*l, power);
            let right = written(*r, power + 1);
            let middle = seq![Lexeme::Operator(op)];
            let end = k + bare(e).len();
            assert(all =~= pre + left + (middle + right + post));
            assert((middle + right + post)[0] == Lexeme::Operator(op));
            lemma_written_is_read(*l, power, floor, pre, middle + right + post);
            assert(all =~= (pre + left + middle) + right + post);
            lemma_written_is_read(*r, power + 1, power + 1, pre + left + middle, post);
            assert(all[k + left.len()] == Lexeme::Operator(op));
            assert(continues(all, k + left.len(), floor));
            assert(bare(e).len() == left.len() + 1 + right.len());
            if post.len() > 0 {
                assert(all[end] == post[0]);
            }
            assert(!continues(all, end, (power + 1) as nat));
            assert(parse_operators(all, end, *r, (power + 1) as nat) == Ok::<
                (Expr, int),
                ParseError,
            >((*r, end)));
            assert(parse_expression(all, k + left.len() + 1, (power + 1) as nat) == Ok::<
                (Expr, int),
                ParseError,
            >((*r, end)));
            assert(parse_operators(all, k + left.len(), *l, floor) == parse_operators(
                all,
                end,
                e,
                floor,
            ));
        },
        Expr::Val(n) => {
            assert(all[k] == Lexeme::Number(n));
            assert(parse_operand(all, k) == Ok::<(Expr, int), ParseError>((e, k + 1)));
        },
        Expr::Var(name) => {
            assert(all[k] == Lexeme::Identifier(name));
            assert(parse_operand(all, k) == Ok::<(Expr, int), ParseError>((e, k + 1)));
        },
        Expr::Let(_, _, _) => {},
    }
}

/// What is read where `e` stands as it is usually written: `e`, and then the
/// operators that follow it.
proof fn lemma_written_is_read(
    e: Expr,
    floor: nat,
    reading: nat,
    pre: Seq<Lexeme>,
    post: Seq<Lexeme>,
)
    requires
        writable(e),
        reading <= floor,
        may_follow(e, floor, post),
    ensures
        written(e, floor).len() > 0,
        !starts_binding(pre + written(e, floor) + post, pre.len() as int),
        parse_expression(pre + written(e, floor) + post, pre.len() as int, reading)
            == parse_operators(
            pre + written(e, floor) + post,
            (pre.len() + written(e, floor).len()) as int,
            e,
            reading,
        ),
    decreases e, 1int,
{
    let all = pre + written(e, floor) + post;
    let k = pre.len() as int;
    if needs_group(e, floor) {
        let open = seq![Lexeme::Delimiter(ScopeMarker::OpenParenthesis)];
        let close = seq![Lexeme::Delimiter(ScopeMarker::CloseParenthesis)];
        let inner = bare(e);
        assert(all =~= (pre + open) + inner + (close + post));
        lemma_bare_is_read(e, 0, pre + open, close + post);
        let end = k + 1 + inner.len();
        assert(all[k] == Lexeme::Delimiter(ScopeMarker::OpenParenthesis));
        assert(all[end] == Lexeme::Delimiter(ScopeMarker::CloseParenthesis));
        assert(!continues(all, end, 0));
        assert(parse_operators(all, end, e, 0) == Ok::<(Expr, int), ParseError>((e, end)));
        assert(parse_expression(all, k + 1, 0) == Ok::<(Expr, int), ParseError>((e, end)));
        assert(parse_declaration(all, k + 1) == Ok::<(Expr, int), ParseError>((e, end)));
        assert(closes_group(all, end, ScopeMarker::OpenParenthesis));
        assert(parse_operand(all, k) == Ok::<(Expr, int), ParseError>((e, end + 1)));
        assert(written(e, floor).len() == inner.len() + 2);
    } else {
        lemma_bare_is_read(e, reading, pre, post);
    }
}

/// Precedence and grouping hold of every expression: a tree of literals,
/// variables and operators, written as usual, with parentheses only around
/// an operand whose operator binds less tightly than the operator it belongs
/// to, or as tightly and to its right, parses to that tree.
pub proof fn lemma_usual_writing_is_read(e: Expr)
    requires
        writable(e),
    ensures
        parse(written(e, 0)) == Ok::<Expr, ParseError>(e),
{
    let none = Seq::<Lexeme>::empty();
    let all = written(e, 0);
    assert(all =~= none + all + none);
    lemma_written_is_read(e, 0, 0, none, none);
    assert(parse_operators(all, all.len() as int, e, 0) == Ok::<(Expr, int), ParseError>(
        (e, all.len() as int),
    ));
    assert(structure(all) == Ok::<Expr, ParseError>(e));
    lemma_structure_is_balanced(all);
}

} // verus!
