//! The text of a tree, fully parenthesized.

use vstd::prelude::*;
use vstd::string::StringExecFns;

use crate::parser::element::{Binding, BinaryOperator, Element, Expr, Operation};

verus! {

/// The character of a decimal digit.
pub open spec fn digit_character(d: nat) -> char {
    if d == 0 {
        '0'
    } else if d == 1 {
        '1'
    } else if d == 2 {
        '2'
    } else if d == 3 {
        '3'
    } else if d == 4 {
        '4'
    } else if d == 5 {
        '5'
    } else if d == 6 {
        '6'
    } else if d == 7 {
        '7'
    } else if d == 8 {
        '8'
    } else {
        '9'
    }
}

/// The decimal digits of a number, most significant first, without leading
/// zeros.
pub open spec fn digits_of(n: nat) -> Seq<char>
    decreases n,
{
    if n < 10 {
        seq![digit_character(n)]
    } else {
        digits_of(n / 10).push(digit_character(n % 10))
    }
}

/// The text of a literal: its digits, after a `-` where it is negative.
pub open spec fn number_text(n: int) -> Seq<char> {
    if n < 0 {
        seq!['-'] + digits_of((-n) as nat)
    } else {
        digits_of(n as nat)
    }
}

/// The symbol of an operator.
pub open spec fn symbol_of_operation(op: Operation) -> char {
    match op {
        Operation::Add => '+',
        Operation::Subtract => '-',
        Operation::Multiply => '*',
        Operation::Divide => '/',
        Operation::Power => '^',
    }
}

/// The text of a tree: a literal is its number, a variable its name between
/// single quotes, an operator node `(left op right)`, and a binding
/// `(let name = bound; body)`.
pub open spec fn text_of(e: Expr) -> Seq<char>
    decreases e,
{
    match e {
        Expr::Val(n) => number_text(n),
        Expr::Var(name) => seq!['\''] + name + seq!['\''],
        Expr::Binary(op, l, r) => seq!['('] + text_of(*l) + seq![
            ' ',
            symbol_of_operation(op),
            ' ',
        ] + text_of(*r) + seq![')'],
        Expr::Let(name, bound, body) => seq!['(', 'l', 'e', 't', ' '] + name + seq![' ', '=', ' ']
            + text_of(*bound) + seq![';', ' '] + text_of(*body) + seq![')'],
    }
}

fn digit(d: u64) -> (c: char)
    requires
        d < 10,
    ensures
        c == digit_character(d as nat),
{
    if d == 0 {
        '0'
    } else if d == 1 {
        '1'
    } else if d == 2 {
        '2'
    } else if d == 3 {
        '3'
    } else if d == 4 {
        '4'
    } else if d == 5 {
        '5'
    } else if d == 6 {
        '6'
    } else if d == 7 {
        '7'
    } else if d == 8 {
        '8'
    } else {
        '9'
    }
}

fn symbol(op: Operation) -> (c: char)
    ensures
        c == symbol_of_operation(op),
{
    match op {
        Operation::Add => '+',
        Operation::Subtract => '-',
        Operation::Multiply => '*',
        Operation::Divide => '/',
        Operation::Power => '^',
    }
}

/// Appends the digits of `n`.
fn write_digits(n: u64, out: &mut String)
    ensures
        final(out)@ == old(out)@ + digits_of(n as nat),
    decreases n,
{
    if n >= 10 {
        write_digits(n / 10, out);
    }
    out.push(digit(n % 10));
    assert(out@ =~= old(out)@ + digits_of(n as nat));
}

/// Appends the text of a literal.
fn write_number(v: i32, out: &mut String)
    ensures
        final(out)@ == old(out)@ + number_text(v as int),
{
    if v < 0 {
        out.push('-');
        write_digits((-(v as i64)) as u64, out);
    } else {
        write_digits(v as u64, out);
    }
    assert(out@ =~= old(out)@ + number_text(v as int));
}

/// Appends the text of an operator node.
fn write_operator(op: Operation, node: &BinaryOperator, out: &mut String)
    ensures
        final(out)@ == old(out)@ + text_of(node.expr(op)),
    decreases node,
{
    out.push('(');
    write_text(&node.left, out);
    out.push(' ');
    out.push(symbol(op));
    out.push(' ');
    write_text(&node.right, out);
    out.push(')');
    assert(out@ =~= old(out)@ + text_of(node.expr(op)));
}

/// Appends the text of a binding.
fn write_binding(node: &Binding, out: &mut String)
    ensures
        final(out)@ == old(out)@ + text_of(node.expr()),
    decreases node,
{
    out.push('(');
    out.push('l');
    out.push('e');
    out.push('t');
    out.push(' ');
    out.append(node.name.as_str());
    out.push(' ');
    out.push('=');
    out.push(' ');
    write_text(&node.bound, out);
    out.push(';');
    out.push(' ');
    write_text(&node.body, out);
    out.push(')');
    assert(out@ =~= old(out)@ + text_of(node.expr()));
}

/// Appends the text of a tree.
fn write_text(tree: &Element, out: &mut String)
    ensures
        final(out)@ == old(out)@ + text_of(tree@),
    decreases tree,
{
    match tree {
        Element::Val(v) => write_number(v.val, out),
        Element::Var(v) => {
            out.push('\'');
            out.append(v.var.as_str());
            out.push('\'');
            assert(out@ =~= old(out)@ + text_of(tree@));
        },
        Element::Add(b) => write_operator(Operation::Add, b, out),
        Element::Subtract(b) => write_operator(Operation::Subtract, b, out),
        Element::Multiple(b) => write_operator(Operation::Multiply, b, out),
        Element::Division(b) => write_operator(Operation::Divide, b, out),
        Element::Power(b) => write_operator(Operation::Power, b, out),
        Element::Let(l) => write_binding(l, out),
    }
}

impl Element {
    /// The text of the tree, fully parenthesized: every operator node and
    /// every binding stands between parentheses, so that the text shows the
    /// grouping whatever the precedence is.
    pub fn to_text(&self) -> (s: String)
        ensures
            s@ == text_of(self@),
    {
        let mut out = String::new();
        write_text(self, &mut out);
        assert(out@ =~= text_of(self@));
        out
    }
}

} // verus!
