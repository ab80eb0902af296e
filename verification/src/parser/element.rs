//! The expression tree.
//!
//! A tree is built once, bottom-up, and never changed afterwards. Every node
//! that has children caches its depth, which serves only to decide where
//! resolution may fork.

use vstd::prelude::*;

verus! {

/// The five binary operators.
#[derive(Clone, Copy, Debug, PartialEq, Eq, Structural)]
pub enum Operation {
    /// `+`
    Add,
    /// `-`
    Subtract,
    /// `*`
    Multiply,
    /// `/`
    Divide,
    /// `^`
    Power,
}

/// The operator that a character denotes, if any.
pub open spec fn operation_of(c: char) -> Option<Operation> {
    if c == '+' {
        Some(Operation::Add)
    } else if c == '-' {
        Some(Operation::Subtract)
    } else if c == '*' {
        Some(Operation::Multiply)
    } else if c == '/' {
        Some(Operation::Divide)
    } else if c == '^' {
        Some(Operation::Power)
    } else {
        None
    }
}

/// The operator that a piece of text denotes: that of its only character.
pub open spec fn operation_of_text(s: Seq<char>) -> Option<Operation> {
    if s.len() == 1 {
        operation_of(s[0])
    } else {
        None
    }
}

impl Operation {
    /// The operator written as `c`.
    pub fn from_char(c: char) -> (op: Option<Operation>)
        ensures
            op == operation_of(c),
    {
        if c == '+' {
            Some(Operation::Add)
        } else if c == '-' {
            Some(Operation::Subtract)
        } else if c == '*' {
            Some(Operation::Multiply)
        } else if c == '/' {
            Some(Operation::Divide)
        } else if c == '^' {
            Some(Operation::Power)
        } else {
            None
        }
    }

    /// The operator written as `s`.
    pub fn from_str(s: &str) -> (op: Option<Operation>)
        ensures
            op == operation_of_text(s@),
    {
        if s.unicode_len() == 1 {
            Self::from_char(s.get_char(0))
        } else {
            None
        }
    }
}

/// The mathematical model of an expression tree.
pub enum Expr {
    /// A numeric literal.
    Val(int),
    /// A reference to a variable.
    Var(Seq<char>),
    /// A binary operator applied to a left and a right operand.
    Binary(Operation, Box<Expr>, Box<Expr>),
    /// `Let(name, bound, body)`: `name` stands for `bound` within `body`, and
    /// nowhere else.
    Let(Seq<char>, Box<Expr>, Box<Expr>),
}

impl Expr {
    /// The depth of a tree: 0 for a leaf, and one more than the deeper child
    /// for any other node.
    pub open spec fn depth(self) -> nat
        decreases self,
    {
        match self {
            Expr::Val(_) => 0,
            Expr::Var(_) => 0,
            Expr::Binary(_, l, r) => 1 + deeper(l.depth(), r.depth()),
            Expr::Let(_, b, t) => 1 + deeper(b.depth(), t.depth()),
        }
    }

    /// `-e`, which the tree holds as `0 - e`. In floating point the two
    /// differ where `e` is zero, in the sign of the zero.
    pub open spec fn negated(e: Expr) -> Expr {
        Expr::Binary(Operation::Subtract, Box::new(Expr::Val(0)), Box::new(e))
    }
}

/// The larger of two depths.
pub open spec fn deeper(a: nat, b: nat) -> nat {
    if a >= b {
        a
    } else {
        b
    }
}

/// A variable reference.
#[derive(Clone, Debug, PartialEq, Eq)]
pub struct Var {
    pub var: String,
}

/// A numeric literal.
#[derive(Clone, Debug, PartialEq, Eq)]
pub struct Val {
    pub val: i32,
}

/// The two operands of a binary operator, with the cached depth of the node.
#[derive(Debug, PartialEq, Eq)]
pub struct BinaryOperator {
    pub left: Box<Element>,
    pub right: Box<Element>,
    pub depth: usize,
}

/// A `let` binding: `name` stands for `bound` within `body`.
#[derive(Debug, PartialEq, Eq)]
pub struct Binding {
    pub name: String,
    pub bound: Box<Element>,
    pub body: Box<Element>,
    pub depth: usize,
}

/// A node of the expression tree.
#[derive(Debug, PartialEq, Eq)]
pub enum Element {
    Var(Var),
    Val(Val),
    Add(BinaryOperator),
    Subtract(BinaryOperator),
    Multiple(BinaryOperator),
    Division(BinaryOperator),
    Power(BinaryOperator),
    Let(Binding),
}

impl BinaryOperator {
    /// Both operands are well formed and the cached depth is the node's depth.
    pub open spec fn wf(self) -> bool
        decreases self,
    {
        &&& self.left.wf()
        &&& self.right.wf()
        &&& self.depth == 1 + deeper(self.left.spec_depth(), self.right.spec_depth())
    }

    /// The model of the node that applies `op` to the two operands.
    pub open spec fn expr(self, op: Operation) -> Expr
        decreases self,
    {
        Expr::Binary(op, Box::new(self.left.expr()), Box::new(self.right.expr()))
    }
}

impl Binding {
    /// Both children are well formed and the cached depth is the node's depth.
    pub open spec fn wf(self) -> bool
        decreases self,
    {
        &&& self.bound.wf()
        &&& self.body.wf()
        &&& self.depth == 1 + deeper(self.bound.spec_depth(), self.body.spec_depth())
    }

    /// The model of the binding.
    pub open spec fn expr(self) -> Expr
        decreases self,
    {
        Expr::Let(self.name@, Box::new(self.bound.expr()), Box::new(self.body.expr()))
    }
}

impl Element {
    /// The depth that the node holds: 0 for a leaf, the cached field otherwise.
    pub open spec fn spec_depth(self) -> nat {
        match self {
            Element::Var(_) => 0,
            Element::Val(_) => 0,
            Element::Add(b) => b.depth as nat,
            Element::Subtract(b) => b.depth as nat,
            Element::Multiple(b) => b.depth as nat,
            Element::Division(b) => b.depth as nat,
            Element::Power(b) => b.depth as nat,
            Element::Let(l) => l.depth as nat,
        }
    }

    /// The depth invariant: every cached depth in the tree is one more than
    /// the larger depth of the node's two children.
    pub open spec fn wf(self) -> bool
        decreases self,
    {
        match self {
            Element::Var(_) => true,
            Element::Val(_) => true,
            Element::Add(b) => b.wf(),
            Element::Subtract(b) => b.wf(),
            Element::Multiple(b) => b.wf(),
            Element::Division(b) => b.wf(),
            Element::Power(b) => b.wf(),
            Element::Let(l) => l.wf(),
        }
    }

    /// The model of the tree.
    pub open spec fn expr(self) -> Expr
        decreases self,
    {
        match self {
            Element::Var(v) => Expr::Var(v.var@),
            Element::Val(v) => Expr::Val(v.val as int),
            Element::Add(b) => b.expr(Operation::Add),
            Element::Subtract(b) => b.expr(Operation::Subtract),
            Element::Multiple(b) => b.expr(Operation::Multiply),
            Element::Division(b) => b.expr(Operation::Divide),
            Element::Power(b) => b.expr(Operation::Power),
            Element::Let(l) => l.expr(),
        }
    }
}

impl View for Element {
    type V = Expr;

    open spec fn view(&self) -> Expr {
        self.expr()
    }
}

/// The node that applies `op` to `left` and `right`: it holds the two operands
/// as they are and, as its depth, one more than the larger depth that they
/// hold.
pub open spec fn operator_node(left: Element, op: Operation, right: Element) -> Element {
    let node = BinaryOperator {
        left: Box::new(left),
        right: Box::new(right),
        depth: (1 + deeper(left.spec_depth(), right.spec_depth())) as usize,
    };
    match op {
        Operation::Add => Element::Add(node),
        Operation::Subtract => Element::Subtract(node),
        Operation::Multiply => Element::Multiple(node),
        Operation::Divide => Element::Division(node),
        Operation::Power => Element::Power(node),
    }
}

/// The binding of `name` to `bound` within `body`: it holds the two children
/// as they are and, as its depth, one more than the larger depth that they
/// hold.
pub open spec fn binding_node(name: String, bound: Element, body: Element) -> Element {
    Element::Let(
        Binding {
            name,
            bound: Box::new(bound),
            body: Box::new(body),
            depth: (1 + deeper(bound.spec_depth(), body.spec_depth())) as usize,
        },
    )
}

/// In a well-formed tree the depth that a node holds is the depth of its model.
pub proof fn lemma_cached_depth(e: Element)
    requires
        e.wf(),
    ensures
        e.spec_depth() == e@.depth(),
    decreases e,
{
    match e {
        Element::Var(_) => {},
        Element::Val(_) => {},
        Element::Add(b) => {
            lemma_cached_depth(*b.left);
            lemma_cached_depth(*b.right);
        },
        Element::Subtract(b) => {
            lemma_cached_depth(*b.left);
            lemma_cached_depth(*b.right);
        },
        Element::Multiple(b) => {
            lemma_cached_depth(*b.left);
            lemma_cached_depth(*b.right);
        },
        Element::Division(b) => {
            lemma_cached_depth(*b.left);
            lemma_cached_depth(*b.right);
        },
        Element::Power(b) => {
            lemma_cached_depth(*b.left);
            lemma_cached_depth(*b.right);
        },
        Element::Let(l) => {
            lemma_cached_depth(*l.bound);
            lemma_cached_depth(*l.body);
        },
    }
}

impl Element {
    /// A variable reference.
    pub fn from_var(var: String) -> (e: Self)
        ensures
            e == Element::Var((Var { var })),
            e@ == Expr::Var(var@),
            e.wf(),
            e.spec_depth() == 0,
    {
        Element::Var(Var { var })
    }

    /// A numeric literal.
    pub fn from_val(val: i32) -> (e: Self)
        ensures
            e == Element::Val((Val { val })),
            e@ == Expr::Val(val as int),
            e.wf(),
            e.spec_depth() == 0,
    {
        Element::Val(Val { val })
    }

    /// The node that applies `op` to `left` and `right`.
    pub fn from_operation(left: Element, op: Operation, right: Element) -> (e: Self)
        requires
            left.spec_depth() < usize::MAX,
            right.spec_depth() < usize::MAX,
        ensures
            e == operator_node(left, op, right),
            e@ == Expr::Binary(op, Box::new(left@), Box::new(right@)),
            e.spec_depth() == 1 + deeper(left.spec_depth(), right.spec_depth()),
            left.wf() && right.wf() ==> e.wf(),
    {
        let l = left.get_depth();
        let r = right.get_depth();
        let depth = if l >= r {
            l + 1
        } else {
            r + 1
        };
        let node = BinaryOperator { left: Box::new(left), right: Box::new(right), depth };
        match op {
            Operation::Add => Element::Add(node),
            Operation::Subtract => Element::Subtract(node),
            Operation::Multiply => Element::Multiple(node),
            Operation::Divide => Element::Division(node),
            Operation::Power => Element::Power(node),
        }
    }

    /// The node that applies the operator written as `operator` to `left` and
    /// `right`. `operator` is one of `+`, `-`, `*`, `/` and `^`.
    pub fn from_operator(left: Element, operator: &str, right: Element) -> (e: Self)
        requires
            operation_of_text(operator@) is Some,
            left.spec_depth() < usize::MAX,
            right.spec_depth() < usize::MAX,
        ensures
            e == operator_node(left, operation_of_text(operator@)->0, right),
            e@ == Expr::Binary(operation_of_text(operator@)->0, Box::new(left@), Box::new(right@)),
            e.spec_depth() == 1 + deeper(left.spec_depth(), right.spec_depth()),
            left.wf() && right.wf() ==> e.wf(),
    {
        let op = Operation::from_str(operator).unwrap();
        Self::from_operation(left, op, right)
    }

    /// `-operand`, held as `0 - operand`: the tree has no node of one
    /// operand.
    ///
    /// In exact arithmetic the two are the same number. In floating point
    /// they differ in one case: where `operand` is zero, `0 - operand` is
    /// positive zero and `-operand` is negative zero.
    pub fn negation(operand: Element) -> (e: Self)
        requires
            operand.spec_depth() < usize::MAX,
        ensures
            e == operator_node(Element::Val((Val { val: 0 })), Operation::Subtract, operand),
            e@ == Expr::negated(operand@),
            e.spec_depth() == 1 + operand.spec_depth(),
            operand.wf() ==> e.wf(),
    {
        Self::from_operation(Self::from_val(0), Operation::Subtract, operand)
    }

    /// The binding of `name` to `bound` within `body`.
    pub fn let_in(name: String, bound: Element, body: Element) -> (e: Self)
        requires
            bound.spec_depth() < usize::MAX,
            body.spec_depth() < usize::MAX,
        ensures
            e == binding_node(name, bound, body),
            e@ == Expr::Let(name@, Box::new(bound@), Box::new(body@)),
            e.spec_depth() == 1 + deeper(bound.spec_depth(), body.spec_depth()),
            bound.wf() && body.wf() ==> e.wf(),
    {
        let l = bound.get_depth();
        let r = body.get_depth();
        let depth = if l >= r {
            l + 1
        } else {
            r + 1
        };
        Element::Let(Binding { name, bound: Box::new(bound), body: Box::new(body), depth })
    }

    /// The depth that the node holds.
    pub fn get_depth(&self) -> (d: usize)
        ensures
            d == self.spec_depth(),
    {
        match self {
            Element::Val(_) => 0,
            Element::Var(_) => 0,
            Element::Add(x) => x.depth,
            Element::Subtract(x) => x.depth,
            Element::Multiple(x) => x.depth,
            Element::Division(x) => x.depth,
            Element::Power(x) => x.depth,
            Element::Let(x) => x.depth,
        }
    }
}

} // verus!
