//! Scope resolution: the part of evaluation that decides.
//!
//! Evaluating a tree means looking every variable up in the environment,
//! innermost binding first, and failing on the first name that is bound
//! nowhere. None of that depends on what the numbers are. Resolution does it
//! once, on the names alone, and leaves a closed tree in which every variable
//! is the slot of its binding; the arithmetic on slots is then total.
//!
//! Independent subtrees near the root are resolved on separate workers. The
//! environment is only read while workers run: a binding extends a copy of it.

use vstd::prelude::*;

use crate::parser::element::{Binding, BinaryOperator, Element, Expr, Operation};

verus! {

/// Why a tree cannot be evaluated.
#[derive(Clone, Debug, PartialEq, Eq)]
pub enum EvalError {
    /// The variable of this name is bound nowhere around its use.
    UndefinedVariable(String),
}

/// A tree in which every variable is resolved.
///
/// Slots count the bindings in scope from the outermost, starting at 0: the
/// bindings of the environment first, in their order, then those that the
/// enclosing `Bind` nodes add, from the outermost in.
#[derive(Debug, PartialEq, Eq)]
pub enum Resolved {
    /// A numeric literal.
    Constant(i32),
    /// The value of the binding in this slot.
    Slot(usize),
    /// A binary operator applied to two operands.
    Apply(Operation, Box<Resolved>, Box<Resolved>),
    /// `Bind(bound, body)`: the value of `bound` fills the next slot within
    /// `body`.
    Bind(Box<Resolved>, Box<Resolved>),
}

/// The mathematical model of a resolved tree.
pub enum Closed {
    Constant(int),
    Slot(int),
    Apply(Operation, Box<Closed>, Box<Closed>),
    Bind(Box<Closed>, Box<Closed>),
}

impl Resolved {
    /// The model of the resolved tree.
    pub open spec fn closed(self) -> Closed
        decreases self,
    {
        match self {
            Resolved::Constant(v) => Closed::Constant(v as int),
            Resolved::Slot(i) => Closed::Slot(i as int),
            Resolved::Apply(op, l, r) => Closed::Apply(
                op,
                Box::new(l.closed()),
                Box::new(r.closed()),
            ),
            Resolved::Bind(b, t) => Closed::Bind(Box::new(b.closed()), Box::new(t.closed())),
        }
    }
}

impl View for Resolved {
    type V = Closed;

    open spec fn view(&self) -> Closed {
        self.closed()
    }
}

impl Closed {
    /// Every slot of the tree is filled where `slots` bindings are in scope.
    pub open spec fn within(self, slots: nat) -> bool
        decreases self,
    {
        match self {
            Closed::Constant(_) => true,
            Closed::Slot(i) => 0 <= i < slots,
            Closed::Apply(_, l, r) => l.within(slots) && r.within(slots),
            Closed::Bind(b, t) => b.within(slots) && t.within(slots + 1),
        }
    }
}

/// The names of an environment, as a model.
pub open spec fn name_views(names: Seq<String>) -> Seq<Seq<char>> {
    names.map_values(|s: String| s@)
}

/// The slot of the innermost binding of `name`, if there is one: the last
/// place at which `names` holds it.
pub open spec fn lookup(names: Seq<Seq<char>>, name: Seq<char>) -> Option<int>
    decreases names.len(),
{
    if names.len() == 0 {
        None
    } else if names.last() == name {
        Some(names.len() - 1)
    } else {
        lookup(names.drop_last(), name)
    }
}

/// The resolved form of `e` where the bindings `names` are in scope, or the
/// name of the first variable that is bound nowhere.
///
/// The left operand comes before the right one and the bound expression
/// before the body. The name of a binding is in scope in its body only.
pub open spec fn resolution(e: Expr, names: Seq<Seq<char>>) -> Result<Closed, Seq<char>>
    decreases e,
{
    match e {
        Expr::Val(v) => Ok(Closed::Constant(v)),
        Expr::Var(name) => match lookup(names, name) {
            Some(i) => Ok(Closed::Slot(i)),
            None => Err(name),
        },
        Expr::Binary(op, l, r) => combined(op, resolution(*l, names), resolution(*r, names)),
        Expr::Let(name, bound, body) => bound_in(
            resolution(*bound, names),
            resolution(*body, names.push(name)),
        ),
    }
}

/// What a binary node resolves to, given what its operands resolve to: the
/// left operand's failure if it fails, else the right one's.
pub open spec fn combined(
    op: Operation,
    left: Result<Closed, Seq<char>>,
    right: Result<Closed, Seq<char>>,
) -> Result<Closed, Seq<char>> {
    match left {
        Err(name) => Err(name),
        Ok(l) => match right {
            Err(name) => Err(name),
            Ok(r) => Ok(Closed::Apply(op, Box::new(l), Box::new(r))),
        },
    }
}

/// What a binding resolves to, given what its bound expression and its body
/// resolve to: the bound expression's failure if it fails, else the body's.
pub open spec fn bound_in(
    bound: Result<Closed, Seq<char>>,
    body: Result<Closed, Seq<char>>,
) -> Result<Closed, Seq<char>> {
    match bound {
        Err(name) => Err(name),
        Ok(b) => match body {
            Err(name) => Err(name),
            Ok(t) => Ok(Closed::Bind(Box::new(b), Box::new(t))),
        },
    }
}

/// What the resolver returns, as a model.
pub open spec fn resolved(r: Result<Resolved, EvalError>) -> Result<Closed, Seq<char>> {
    match r {
        Ok(c) => Ok(c@),
        Err(EvalError::UndefinedVariable(name)) => Err(name@),
    }
}

/// A slot that `lookup` finds holds the name, and no later slot does.
pub proof fn lemma_lookup(names: Seq<Seq<char>>, name: Seq<char>)
    ensures
        match lookup(names, name) {
            Some(i) => {
                &&& 0 <= i < names.len()
                &&& names[i] == name
                &&& forall|k: int| i < k < names.len() ==> names[k] != name
            },
            None => forall|k: int| 0 <= k < names.len() ==> names[k] != name,
        },
    decreases names.len(),
{
    if names.len() > 0 && names.last() != name {
        let rest = names.drop_last();
        lemma_lookup(rest, name);
        assert(forall|k: int| 0 <= k < rest.len() ==> rest[k] == names[k]);
    }
}

/// A tree that resolves is closed under the bindings that were in scope.
pub proof fn lemma_resolution_within(e: Expr, names: Seq<Seq<char>>)
    ensures
        resolution(e, names) matches Ok(c) ==> c.within(names.len()),
    decreases e,
{
    match e {
        Expr::Val(_) => {},
        Expr::Var(name) => {
            lemma_lookup(names, name);
        },
        Expr::Binary(_, l, r) => {
            lemma_resolution_within(*l, names);
            lemma_resolution_within(*r, names);
        },
        Expr::Let(name, bound, body) => {
            lemma_resolution_within(*bound, names);
            lemma_resolution_within(*body, names.push(name));
        },
    }
}

/// Whether `e` uses a variable that no binding around the use names: neither
/// one of `names` nor an enclosing `let`.
pub open spec fn has_unbound(e: Expr, names: Seq<Seq<char>>) -> bool
    decreases e,
{
    match e {
        Expr::Val(_) => false,
        Expr::Var(name) => !names.contains(name),
        Expr::Binary(_, l, r) => has_unbound(*l, names) || has_unbound(*r, names),
        Expr::Let(name, bound, body) => has_unbound(*bound, names) || has_unbound(
            *body,
            names.push(name),
        ),
    }
}

/// Undefined variables fail, and nothing else does: a tree resolves unless
/// it uses a variable that no binding around the use names.
pub proof fn lemma_fails_iff_unbound(e: Expr, names: Seq<Seq<char>>)
    ensures
        resolution(e, names) is Err <==> has_unbound(e, names),
    decreases e,
{
    match e {
        Expr::Val(_) => {},
        Expr::Var(name) => {
            lemma_lookup(names, name);
        },
        Expr::Binary(_, l, r) => {
            lemma_fails_iff_unbound(*l, names);
            lemma_fails_iff_unbound(*r, names);
        },
        Expr::Let(name, bound, body) => {
            lemma_fails_iff_unbound(*bound, names);
            lemma_fails_iff_unbound(*body, names.push(name));
        },
    }
}

/// A binding shadows: within its body its name is its own slot, whatever the
/// bindings around it are, and every other name is what it was outside.
pub proof fn lemma_binding_shadows(names: Seq<Seq<char>>, bound: Seq<char>, name: Seq<char>)
    ensures
        lookup(names.push(bound), name) == if name == bound {
            Some(names.len() as int)
        } else {
            lookup(names, name)
        },
{
    assert(names.push(bound).drop_last() == names);
}

/// The number of levels, counted from the root, at which the two operands of
/// an operator are resolved on separate workers.
pub const FORK_LEVELS: usize = 2;

/// The slot of the innermost binding of `name`.
fn find(names: &Vec<String>, name: &String) -> (slot: Option<usize>)
    ensures
        match slot {
            Some(i) => lookup(name_views(names@), name@) == Some(i as int),
            None => lookup(name_views(names@), name@) is None,
        },
{
    let ghost all = name_views(names@);
    let mut k: usize = names.len();
    assert(all.take(k as int) == all);
    while k > 0
        invariant
            k <= names.len(),
            all == name_views(names@),
            lookup(all, name@) == lookup(all.take(k as int), name@),
        decreases k,
    {
        assert(all.take(k as int).last() == names@[k - 1]@);
        assert(all.take(k as int).drop_last() == all.take(k - 1));
        if names[k - 1] == *name {
            return Some(k - 1);
        }
        k = k - 1;
    }
    assert(all.take(0).len() == 0);
    None
}

/// One more name is one more model.
proof fn lemma_name_views_push(names: Seq<String>, name: String)
    ensures
        name_views(names.push(name)) == name_views(names).push(name@),
{
    assert(name_views(names.push(name)) =~= name_views(names).push(name@));
}

/// The environment `names` with one more binding, innermost.
fn extended(names: &Vec<String>, name: &String) -> (inner: Vec<String>)
    ensures
        name_views(inner@) == name_views(names@).push(name@),
{
    let mut inner: Vec<String> = Vec::new();
    let mut k: usize = 0;
    while k < names.len()
        invariant
            k <= names.len(),
            name_views(inner@) == name_views(names@).take(k as int),
        decreases names.len() - k,
    {
        let copy = names[k].clone();
        proof {
            lemma_name_views_push(inner@, copy);
            assert(name_views(names@).take(k + 1) == name_views(names@).take(k as int).push(
                copy@,
            ));
        }
        inner.push(copy);
        k = k + 1;
    }
    let copy = name.clone();
    proof {
        lemma_name_views_push(inner@, copy);
        assert(name_views(names@).take(k as int) == name_views(names@));
    }
    inner.push(copy);
    inner
}

/// The resolved operator node, given its resolved operands: the left
/// operand's failure if it failed, else the right one's.
pub fn join_operands(
    op: Operation,
    left: Result<Resolved, EvalError>,
    right: Result<Resolved, EvalError>,
) -> (r: Result<Resolved, EvalError>)
    ensures
        resolved(r) == combined(op, resolved(left), resolved(right)),
{
    match left {
        Err(e) => Err(e),
        Ok(l) => match right {
            Err(e) => Err(e),
            Ok(r) => Ok(Resolved::Apply(op, Box::new(l), Box::new(r))),
        },
    }
}

/// The levels that are left one step further from the root.
fn below(levels: usize) -> (next: usize)
    ensures
        next == if levels > 0 {
            levels - 1
        } else {
            0
        },
{
    if levels > 0 {
        levels - 1
    } else {
        0
    }
}

/// Resolves an operator node.
fn resolve_operator(
    op: Operation,
    node: &BinaryOperator,
    names: &Vec<String>,
    levels: usize,
) -> (r: Result<Resolved, EvalError>)
    ensures
        resolved(r) == resolution(node.expr(op), name_views(names@)),
    decreases node,
{
    let next = below(levels);
    if levels > 0 && node.left.get_depth() > 0 && node.right.get_depth() > 0 {
        let left_task = || -> (x: Result<Resolved, EvalError>)
            ensures
                resolved(x) == resolution(node.left.expr(), name_views(names@)),
            {
                resolve_with(&node.left, names, next)
            };
        let right_task = || -> (x: Result<Resolved, EvalError>)
            ensures
                resolved(x) == resolution(node.right.expr(), name_views(names@)),
            {
                resolve_with(&node.right, names, next)
            };
        let (left, right) = rayon::join(left_task, right_task);
        join_operands(op, left, right)
    } else {
        match resolve_with(&node.left, names, next) {
            Err(e) => Err(e),
            Ok(l) => match resolve_with(&node.right, names, next) {
                Err(e) => Err(e),
                Ok(r) => Ok(Resolved::Apply(op, Box::new(l), Box::new(r))),
            },
        }
    }
}

/// Resolves a binding: the bound expression in the scope of the binding, the
/// body in that scope with the binding's name added.
fn resolve_binding(node: &Binding, names: &Vec<String>, levels: usize) -> (r: Result<
    Resolved,
    EvalError,
>)
    ensures
        resolved(r) == resolution(node.expr(), name_views(names@)),
    decreases node,
{
    let next = below(levels);
    match resolve_with(&node.bound, names, next) {
        Err(e) => Err(e),
        Ok(b) => {
            let inner = extended(names, &node.name);
            match resolve_with(&node.body, &inner, next) {
                Err(e) => Err(e),
                Ok(t) => Ok(Resolved::Bind(Box::new(b), Box::new(t))),
            }
        },
    }
}

/// Resolves `tree` in the scope of the bindings `names`, outermost first,
/// forking at the first `levels` levels below the root.
///
/// Returns the resolved tree, or the first variable that no binding around it
/// names. The result does not depend on `levels`.
pub fn resolve_with(tree: &Element, names: &Vec<String>, levels: usize) -> (r: Result<
    Resolved,
    EvalError,
>)
    ensures
        resolved(r) == resolution(tree@, name_views(names@)),
        r matches Ok(c) ==> c@.within(names@.len()),
    decreases tree,
{
    proof {
        lemma_resolution_within(tree@, name_views(names@));
    }
    match tree {
        Element::Val(v) => Ok(Resolved::Constant(v.val)),
        Element::Var(v) => match find(names, &v.var) {
            Some(i) => Ok(Resolved::Slot(i)),
            None => Err(EvalError::UndefinedVariable(v.var.clone())),
        },
        Element::Add(b) => resolve_operator(Operation::Add, b, names, levels),
        Element::Subtract(b) => resolve_operator(Operation::Subtract, b, names, levels),
        Element::Multiple(b) => resolve_operator(Operation::Multiply, b, names, levels),
        Element::Division(b) => resolve_operator(Operation::Divide, b, names, levels),
        Element::Power(b) => resolve_operator(Operation::Power, b, names, levels),
        Element::Let(l) => resolve_binding(l, names, levels),
    }
}

/// Resolves `tree` in the scope of the bindings `names`, outermost first.
///
/// Returns the resolved tree, or the first variable that no binding around it
/// names: the left operand is read before the right one, and the bound
/// expression of a binding before its body.
pub fn resolve(tree: &Element, names: &Vec<String>) -> (r: Result<Resolved, EvalError>)
    ensures
        resolved(r) == resolution(tree@, name_views(names@)),
        r matches Ok(c) ==> c@.within(names@.len()),
{
    resolve_with(tree, names, FORK_LEVELS)
}

} // verus!
