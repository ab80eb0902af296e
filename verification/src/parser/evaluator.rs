//! Evaluation over any kind of number.
//!
//! The evaluator walks a resolved tree and leaves the arithmetic to its
//! caller: `literal` turns a literal into a number and `apply` applies an
//! operator to two numbers. What the evaluator adds is the order of the walk,
//! the slots of the bindings, and the forking near the root.

use vstd::prelude::*;

use crate::parser::element::{Element, Expr, Operation};
use crate::parser::resolver::{
    lemma_lookup, lookup, name_views, resolution, resolve_with, Closed, EvalError, Resolved,
};

verus! {

/// `literal` may be called on every literal.
pub open spec fn total_literal<V, L: Fn(i32) -> V>(literal: L) -> bool {
    forall|n: i32| call_requires(literal, (n,))
}

/// `apply` may be called on every operator and every two numbers.
pub open spec fn total_apply<V, A: Fn(Operation, V, V) -> V>(apply: A) -> bool {
    forall|op: Operation, a: V, b: V| call_requires(apply, (op, a, b))
}

/// The record of one walk over a resolved tree: the value of every node, in
/// the shape of the tree.
pub enum Trace<V> {
    /// The value of a literal or of a slot.
    Leaf(V),
    /// The value of an operator node or of a binding, with the records of its
    /// two children.
    Node(V, Box<Trace<V>>, Box<Trace<V>>),
}

impl<V> Trace<V> {
    /// The value at the root.
    pub open spec fn value(self) -> V {
        match self {
            Trace::Leaf(v) => v,
            Trace::Node(v, _, _) => v,
        }
    }
}

/// Whether `t` records a walk over the resolved tree `c` where the slots hold
/// `slots`: a literal is what `literal` makes of it, a slot is what it holds,
/// an operator node is what `apply` makes of the values of its operands, and
/// a binding is the value of its body where one more slot holds the value of
/// its bound expression.
pub open spec fn follows<V, L: Fn(i32) -> V, A: Fn(Operation, V, V) -> V>(
    c: Closed,
    slots: Seq<V>,
    literal: L,
    apply: A,
    t: Trace<V>,
) -> bool
    decreases c,
{
    match c {
        Closed::Constant(n) => t is Leaf && call_ensures(literal, (n as i32,), t.value()),
        Closed::Slot(i) => t is Leaf && 0 <= i < slots.len() && t.value() == slots[i],
        Closed::Apply(op, l, r) => {
            &&& t matches Trace::Node(v, a, b)
            &&& follows(*l, slots, literal, apply, *a)
            &&& follows(*r, slots, literal, apply, *b)
            &&& call_ensures(apply, (op, a.value(), b.value()), v)
        },
        Closed::Bind(bound, body) => {
            &&& t matches Trace::Node(v, w, u)
            &&& follows(*bound, slots, literal, apply, *w)
            &&& follows(*body, slots.push(w.value()), literal, apply, *u)
            &&& v == u.value()
        },
    }
}

/// Whether `v` is a value of the resolved tree `c` where the slots hold
/// `slots`: the value at the root of some walk over it.
pub open spec fn computes<V, L: Fn(i32) -> V, A: Fn(Operation, V, V) -> V>(
    c: Closed,
    slots: Seq<V>,
    literal: L,
    apply: A,
    v: V,
) -> bool {
    exists|t: Trace<V>| #[trigger] follows(c, slots, literal, apply, t) && t.value() == v
}

/// A value of each operand and what `apply` makes of them give a value of the
/// operator node.
proof fn lemma_computes_apply<V, L: Fn(i32) -> V, A: Fn(Operation, V, V) -> V>(
    op: Operation,
    l: Closed,
    r: Closed,
    slots: Seq<V>,
    literal: L,
    apply: A,
    a: V,
    b: V,
    v: V,
)
    requires
        computes(l, slots, literal, apply, a),
        computes(r, slots, literal, apply, b),
        call_ensures(apply, (op, a, b), v),
    ensures
        computes(Closed::Apply(op, Box::new(l), Box::new(r)), slots, literal, apply, v),
{
    let ta = choose|t: Trace<V>| #[trigger] follows(l, slots, literal, apply, t) && t.value() == a;
    let tb = choose|t: Trace<V>| #[trigger] follows(r, slots, literal, apply, t) && t.value() == b;
    let t = Trace::Node(v, Box::new(ta), Box::new(tb));
    assert(follows(Closed::Apply(op, Box::new(l), Box::new(r)), slots, literal, apply, t));
}

/// A value of the bound expression and a value of the body where one more
/// slot holds it give a value of the binding.
proof fn lemma_computes_bind<V, L: Fn(i32) -> V, A: Fn(Operation, V, V) -> V>(
    bound: Closed,
    body: Closed,
    slots: Seq<V>,
    literal: L,
    apply: A,
    w: V,
    v: V,
)
    requires
        computes(bound, slots, literal, apply, w),
        computes(body, slots.push(w), literal, apply, v),
    ensures
        computes(Closed::Bind(Box::new(bound), Box::new(body)), slots, literal, apply, v),
{
    let tw = choose|t: Trace<V>| #[trigger]
        follows(bound, slots, literal, apply, t) && t.value() == w;
    let tu = choose|t: Trace<V>| #[trigger]
        follows(body, slots.push(w), literal, apply, t) && t.value() == v;
    let t = Trace::Node(v, Box::new(tw), Box::new(tu));
    assert(follows(Closed::Bind(Box::new(bound), Box::new(body)), slots, literal, apply, t));
}

/// The slots with one more, innermost.
fn with_slot<V: Copy>(slots: &Vec<V>, value: V) -> (inner: Vec<V>)
    ensures
        inner@ == slots@.push(value),
{
    let mut inner: Vec<V> = Vec::new();
    let mut k: usize = 0;
    while k < slots.len()
        invariant
            k <= slots.len(),
            inner@ == slots@.take(k as int),
        decreases slots.len() - k,
    {
        inner.push(slots[k]);
        assert(slots@.take(k + 1) == slots@.take(k as int).push(slots@[k as int]));
        k = k + 1;
    }
    assert(slots@.take(k as int) == slots@);
    inner.push(value);
    inner
}

/// Whether a node has no children.
fn is_leaf(node: &Resolved) -> (b: bool)
    ensures
        b == (node is Constant || node is Slot),
{
    match node {
        Resolved::Constant(_) => true,
        Resolved::Slot(_) => true,
        _ => false,
    }
}

/// Evaluates a resolved tree whose slots are all filled, forking at the first
/// `levels` levels below the root.
///
/// Returns a value of the tree: `literal` is called once for every literal
/// and `apply` once for every operator node, on the values of its operands.
/// Below the forking levels the left operand is evaluated before the right
/// one; a bound expression is always evaluated before its body.
pub fn evaluate_closed<V, L, A>(
    node: &Resolved,
    slots: &Vec<V>,
    literal: L,
    apply: A,
    levels: usize,
) -> (v: V)
    where
        V: Copy + Send + Sync,
        L: Fn(i32) -> V + Copy + Send + Sync,
        A: Fn(Operation, V, V) -> V + Copy + Send + Sync,

    requires
        node@.within(slots@.len()),
        total_literal(literal),
        total_apply(apply),
    ensures
        computes(node@, slots@, literal, apply, v),
    decreases node,
{
    let next = if levels > 0 {
        levels - 1
    } else {
        0
    };
    match node {
        Resolved::Constant(n) => {
            let v = literal(*n);
            assert(follows(node@, slots@, literal, apply, Trace::Leaf(v))) by {
                assert((*n as int) as i32 == *n);
            }
            v
        },
        Resolved::Slot(i) => {
            let v = slots[*i];
            assert(follows(node@, slots@, literal, apply, Trace::Leaf(v)));
            v
        },
        Resolved::Apply(op, l, r) => {
            let (a, b) = if levels > 0 && !is_leaf(l) && !is_leaf(r) {
                let left_task = || -> (x: V)
                    ensures
                        computes(l@, slots@, literal, apply, x),
                    {
                        evaluate_closed(l, slots, literal, apply, next)
                    };
                let right_task = || -> (x: V)
                    ensures
                        computes(r@, slots@, literal, apply, x),
                    {
                        evaluate_closed(r, slots, literal, apply, next)
                    };
                rayon::join(left_task, right_task)
            } else {
                let a = evaluate_closed(l, slots, literal, apply, next);
                let b = evaluate_closed(r, slots, literal, apply, next);
                (a, b)
            };
            let v = apply(*op, a, b);
            proof {
                lemma_computes_apply(*op, l@, r@, slots@, literal, apply, a, b, v);
            }
            v
        },
        Resolved::Bind(bound, body) => {
            let w = evaluate_closed(bound, slots, literal, apply, next);
            let inner = with_slot(slots, w);
            let v = evaluate_closed(body, &inner, literal, apply, next);
            proof {
                lemma_computes_bind(bound@, body@, slots@, literal, apply, w, v);
            }
            v
        },
    }
}

/// What the evaluator returns, as a model: the value, or the name that is
/// bound nowhere.
pub open spec fn evaluated<V>(r: Result<V, EvalError>) -> Result<V, Seq<char>> {
    match r {
        Ok(v) => Ok(v),
        Err(EvalError::UndefinedVariable(name)) => Err(name@),
    }
}

/// The names of an environment, outermost binding first.
pub open spec fn names_of<V>(bindings: Seq<(String, V)>) -> Seq<Seq<char>> {
    bindings.map_values(|b: (String, V)| b.0@)
}

/// The values of an environment, outermost binding first.
pub open spec fn values_of<V>(bindings: Seq<(String, V)>) -> Seq<V> {
    bindings.map_values(|b: (String, V)| b.1)
}

/// Splits an environment into its names and its values.
fn split<V: Copy>(bindings: &Vec<(String, V)>) -> (r: (Vec<String>, Vec<V>))
    ensures
        name_views(r.0@) == names_of(bindings@),
        r.1@ == values_of(bindings@),
{
    let mut names: Vec<String> = Vec::new();
    let mut values: Vec<V> = Vec::new();
    let mut k: usize = 0;
    while k < bindings.len()
        invariant
            k <= bindings.len(),
            name_views(names@) == names_of(bindings@).take(k as int),
            values@ == values_of(bindings@).take(k as int),
        decreases bindings.len() - k,
    {
        let name = bindings[k].0.clone();
        let value = bindings[k].1;
        proof {
            assert(name_views(names@.push(name)) =~= name_views(names@).push(name@));
            assert(names_of(bindings@).take(k + 1) =~= names_of(bindings@).take(k as int).push(
                name@,
            ));
            assert(values_of(bindings@).take(k + 1) =~= values_of(bindings@).take(k as int).push(
                value,
            ));
        }
        names.push(name);
        values.push(value);
        k = k + 1;
    }
    proof {
        assert(names_of(bindings@).take(k as int) == names_of(bindings@));
        assert(values_of(bindings@).take(k as int) == values_of(bindings@));
    }
    (names, values)
}

/// Evaluates `tree` in the environment `bindings`, outermost binding first,
/// forking at the first `levels` levels below the root.
///
/// Fails with the first variable that no binding around it names, before any
/// arithmetic is done; the left operand is read before the right one, and the
/// bound expression of a binding before its body. Returns a value of the
/// resolved tree otherwise.
pub fn evaluate_with<V, L, A>(
    tree: &Element,
    bindings: &Vec<(String, V)>,
    literal: L,
    apply: A,
    levels: usize,
) -> (r: Result<V, EvalError>)
    where
        V: Copy + Send + Sync,
        L: Fn(i32) -> V + Copy + Send + Sync,
        A: Fn(Operation, V, V) -> V + Copy + Send + Sync,

    requires
        total_literal(literal),
        total_apply(apply),
    ensures
        match resolution(tree@, names_of(bindings@)) {
            Err(name) => evaluated(r) == Err::<V, Seq<char>>(name),
            Ok(c) => r matches Ok(v) && computes(c, values_of(bindings@), literal, apply, v),
        },
{
    let (names, values) = split(bindings);
    match resolve_with(tree, &names, levels) {
        Err(e) => Err(e),
        Ok(closed) => Ok(evaluate_closed(&closed, &values, literal, apply, levels)),
    }
}

/// The value of `e` where the bindings `names`, outermost first, stand for
/// `values`, for arithmetic that is a function: `lit` gives the number of a
/// literal and `app` the result of an operator.
///
/// A variable is the value of its innermost binding, and fails where it has
/// none. An operator node fails as its left operand does, else as its right
/// operand does. A binding evaluates its bound expression where the binding
/// is not yet in scope, and its body where it is.
pub open spec fn value_of<V>(
    e: Expr,
    names: Seq<Seq<char>>,
    values: Seq<V>,
    lit: spec_fn(i32) -> V,
    app: spec_fn(Operation, V, V) -> V,
) -> Result<V, Seq<char>>
    decreases e,
{
    match e {
        Expr::Val(n) => Ok(lit(n as i32)),
        Expr::Var(name) => match lookup(names, name) {
            Some(i) => Ok(values[i]),
            None => Err(name),
        },
        Expr::Binary(op, l, r) => match value_of(*l, names, values, lit, app) {
            Err(name) => Err(name),
            Ok(a) => match value_of(*r, names, values, lit, app) {
                Err(name) => Err(name),
                Ok(b) => Ok(app(op, a, b)),
            },
        },
        Expr::Let(name, bound, body) => match value_of(*bound, names, values, lit, app) {
            Err(name) => Err(name),
            Ok(w) => value_of(*body, names.push(name), values.push(w), lit, app),
        },
    }
}

/// The value of the resolved tree `c` where the slots hold `slots`, for
/// arithmetic that is a function.
pub open spec fn value_of_closed<V>(
    c: Closed,
    slots: Seq<V>,
    lit: spec_fn(i32) -> V,
    app: spec_fn(Operation, V, V) -> V,
) -> V
    decreases c,
{
    match c {
        Closed::Constant(n) => lit(n as i32),
        Closed::Slot(i) => slots[i],
        Closed::Apply(op, l, r) => app(
            op,
            value_of_closed(*l, slots, lit, app),
            value_of_closed(*r, slots, lit, app),
        ),
        Closed::Bind(bound, body) => value_of_closed(
            *body,
            slots.push(value_of_closed(*bound, slots, lit, app)),
            lit,
            app,
        ),
    }
}

/// Whether the arithmetic that the evaluator is given computes the functions
/// `lit` and `app`: whatever `literal` and `apply` return is what these give.
pub open spec fn is_function<V, L: Fn(i32) -> V, A: Fn(Operation, V, V) -> V>(
    literal: L,
    apply: A,
    lit: spec_fn(i32) -> V,
    app: spec_fn(Operation, V, V) -> V,
) -> bool {
    &&& forall|n: i32, v: V| #[trigger] call_ensures(literal, (n,), v) ==> v == lit(n)
    &&& forall|op: Operation, a: V, b: V, v: V| #[trigger]
        call_ensures(apply, (op, a, b), v) ==> v == app(op, a, b)
}

/// Resolution keeps the value: a tree that resolves has the value of its
/// resolved tree, and a tree that does not resolve fails with the same name.
pub proof fn lemma_resolution_keeps_value<V>(
    e: Expr,
    names: Seq<Seq<char>>,
    values: Seq<V>,
    lit: spec_fn(i32) -> V,
    app: spec_fn(Operation, V, V) -> V,
)
    requires
        names.len() == values.len(),
    ensures
        value_of(e, names, values, lit, app) == match resolution(e, names) {
            Err(name) => Err::<V, Seq<char>>(name),
            Ok(c) => Ok::<V, Seq<char>>(value_of_closed(c, values, lit, app)),
        },
    decreases e,
{
    match e {
        Expr::Val(_) => {},
        Expr::Var(name) => {
            lemma_lookup(names, name);
        },
        Expr::Binary(_, l, r) => {
            lemma_resolution_keeps_value(*l, names, values, lit, app);
            lemma_resolution_keeps_value(*r, names, values, lit, app);
        },
        Expr::Let(name, bound, body) => {
            lemma_resolution_keeps_value(*bound, names, values, lit, app);
            if let Ok(w) = value_of(*bound, names, values, lit, app) {
                lemma_resolution_keeps_value(*body, names.push(name), values.push(w), lit, app);
            }
        },
    }
}

/// Where the arithmetic is a function, every walk over a resolved tree ends
/// in the value of the tree.
pub proof fn lemma_walk_is_value<V, L: Fn(i32) -> V, A: Fn(Operation, V, V) -> V>(
    c: Closed,
    slots: Seq<V>,
    literal: L,
    apply: A,
    lit: spec_fn(i32) -> V,
    app: spec_fn(Operation, V, V) -> V,
    t: Trace<V>,
)
    requires
        is_function(literal, apply, lit, app),
        follows(c, slots, literal, apply, t),
    ensures
        t.value() == value_of_closed(c, slots, lit, app),
    decreases c,
{
    match c {
        Closed::Constant(_) => {},
        Closed::Slot(_) => {},
        Closed::Apply(_, l, r) => {
            lemma_walk_is_value(*l, slots, literal, apply, lit, app, *t->Node_1);
            lemma_walk_is_value(*r, slots, literal, apply, lit, app, *t->Node_2);
        },
        Closed::Bind(bound, body) => {
            lemma_walk_is_value(*bound, slots, literal, apply, lit, app, *t->Node_1);
            lemma_walk_is_value(
                *body,
                slots.push(t->Node_1.value()),
                literal,
                apply,
                lit,
                app,
                *t->Node_2,
            );
        },
    }
}

/// The result is independent of the strategy: where the arithmetic is a
/// function, whatever the evaluator returns for a tree is the value of the
/// tree, at whatever levels it forked.
pub proof fn lemma_evaluation_is_value<V, L: Fn(i32) -> V, A: Fn(Operation, V, V) -> V>(
    e: Expr,
    names: Seq<Seq<char>>,
    values: Seq<V>,
    literal: L,
    apply: A,
    lit: spec_fn(i32) -> V,
    app: spec_fn(Operation, V, V) -> V,
    r: Result<V, Seq<char>>,
)
    requires
        names.len() == values.len(),
        is_function(literal, apply, lit, app),
        match resolution(e, names) {
            Err(name) => r == Err::<V, Seq<char>>(name),
            Ok(c) => r matches Ok(v) && computes(c, values, literal, apply, v),
        },
    ensures
        r == value_of(e, names, values, lit, app),
{
    lemma_resolution_keeps_value(e, names, values, lit, app);
    if let Ok(c) = resolution(e, names) {
        let v = r->Ok_0;
        let t = choose|t: Trace<V>| #[trigger]
            follows(c, values, literal, apply, t) && t.value() == v;
        lemma_walk_is_value(c, values, literal, apply, lit, app, t);
    }
}

} // verus!
