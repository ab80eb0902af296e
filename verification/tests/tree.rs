use arith_expr::parser::element::{Element, Operation};
use arith_expr::parser::resolver::{join_operands, resolve, EvalError, Resolved};

fn val(v: i32) -> Element {
    Element::from_val(v)
}

fn var(name: &str) -> Element {
    Element::from_var(name.to_string())
}

fn names(list: &[&str]) -> Vec<String> {
    list.iter().map(|s| s.to_string()).collect()
}

#[test]
fn leaves_have_depth_zero() {
    assert_eq!(val(7).get_depth(), 0);
    assert_eq!(var("x").get_depth(), 0);
}

#[test]
fn operator_is_one_deeper_than_its_deeper_operand() {
    let shallow = Element::from_operation(val(1), Operation::Add, val(2));
    assert_eq!(shallow.get_depth(), 1);
    let left_heavy = Element::from_operation(shallow, Operation::Multiply, val(3));
    assert_eq!(left_heavy.get_depth(), 2);
    let right_heavy = Element::from_operation(val(4), Operation::Subtract, left_heavy);
    assert_eq!(right_heavy.get_depth(), 3);
}

#[test]
fn binding_is_one_deeper_than_its_deeper_child() {
    let body = Element::from_operation(var("x"), Operation::Add, val(1));
    let binding = Element::let_in("x".to_string(), val(10), body);
    assert_eq!(binding.get_depth(), 2);
}

#[test]
fn negation_is_one_deeper_than_its_operand() {
    assert_eq!(Element::negation(val(3)).get_depth(), 1);
}

#[test]
fn from_operator_reads_the_five_symbols() {
    assert!(matches!(
        Element::from_operator(val(1), "+", val(2)),
        Element::Add(_)
    ));
    assert!(matches!(
        Element::from_operator(val(1), "-", val(2)),
        Element::Subtract(_)
    ));
    assert!(matches!(
        Element::from_operator(val(1), "*", val(2)),
        Element::Multiple(_)
    ));
    assert!(matches!(
        Element::from_operator(val(1), "/", val(2)),
        Element::Division(_)
    ));
    assert!(matches!(
        Element::from_operator(val(1), "^", val(2)),
        Element::Power(_)
    ));
}

#[test]
fn from_operator_keeps_its_operands_in_order() {
    let node = Element::from_operator(val(1), "-", var("x"));
    assert_eq!(
        node,
        Element::from_operation(val(1), Operation::Subtract, var("x"))
    );
    match node {
        Element::Subtract(b) => {
            assert_eq!(*b.left, val(1));
            assert_eq!(*b.right, var("x"));
            assert_eq!(b.depth, 1);
        }
        _ => panic!("a subtraction was built"),
    }
}

#[test]
fn operation_is_read_from_text() {
    assert_eq!(Operation::from_str("+"), Some(Operation::Add));
    assert_eq!(Operation::from_str("-"), Some(Operation::Subtract));
    assert_eq!(Operation::from_str("*"), Some(Operation::Multiply));
    assert_eq!(Operation::from_str("/"), Some(Operation::Divide));
    assert_eq!(Operation::from_str("^"), Some(Operation::Power));
    assert_eq!(Operation::from_str("%"), None);
    assert_eq!(Operation::from_str("++"), None);
    assert_eq!(Operation::from_str(""), None);
    assert_eq!(Operation::from_char('x'), None);
}

#[test]
fn literal_resolves_to_a_constant() {
    assert_eq!(resolve(&val(5), &names(&[])), Ok(Resolved::Constant(5)));
}

#[test]
fn variable_resolves_to_its_innermost_slot() {
    assert_eq!(
        resolve(&var("x"), &names(&["x", "y", "x", "z"])),
        Ok(Resolved::Slot(2))
    );
    assert_eq!(
        resolve(&var("z"), &names(&["x", "y", "x", "z"])),
        Ok(Resolved::Slot(3))
    );
    assert_eq!(
        resolve(&var("w"), &names(&["x", "y"])),
        Err(EvalError::UndefinedVariable("w".to_string()))
    );
}

#[test]
fn binding_adds_a_slot_for_its_body_only() {
    let body = Element::from_operation(var("x"), Operation::Add, var("y"));
    let tree = Element::let_in("x".to_string(), var("y"), body);
    assert_eq!(
        resolve(&tree, &names(&["y"])),
        Ok(Resolved::Bind(
            Box::new(Resolved::Slot(0)),
            Box::new(Resolved::Apply(
                Operation::Add,
                Box::new(Resolved::Slot(1)),
                Box::new(Resolved::Slot(0))
            ))
        ))
    );
    let outside = Element::from_operation(
        Element::let_in("x".to_string(), val(1), var("x")),
        Operation::Add,
        var("x"),
    );
    assert_eq!(
        resolve(&outside, &names(&[])),
        Err(EvalError::UndefinedVariable("x".to_string()))
    );
}

#[test]
fn bound_expression_fails_before_the_body() {
    let tree = Element::let_in("x".to_string(), var("p"), var("q"));
    assert_eq!(
        resolve(&tree, &names(&[])),
        Err(EvalError::UndefinedVariable("p".to_string()))
    );
}

#[test]
fn join_prefers_the_failure_on_the_left() {
    let left = || Err(EvalError::UndefinedVariable("l".to_string()));
    let right = || Err(EvalError::UndefinedVariable("r".to_string()));
    assert_eq!(
        join_operands(Operation::Add, left(), right()),
        Err(EvalError::UndefinedVariable("l".to_string()))
    );
    assert_eq!(
        join_operands(Operation::Add, Ok(Resolved::Constant(1)), right()),
        Err(EvalError::UndefinedVariable("r".to_string()))
    );
    assert_eq!(
        join_operands(Operation::Add, left(), Ok(Resolved::Constant(1))),
        Err(EvalError::UndefinedVariable("l".to_string()))
    );
    assert_eq!(
        join_operands(
            Operation::Divide,
            Ok(Resolved::Constant(1)),
            Ok(Resolved::Slot(0))
        ),
        Ok(Resolved::Apply(
            Operation::Divide,
            Box::new(Resolved::Constant(1)),
            Box::new(Resolved::Slot(0))
        ))
    );
}

#[test]
fn forked_operands_keep_their_sides() {
    let left = Element::from_operation(var("a"), Operation::Subtract, var("b"));
    let right = Element::from_operation(var("b"), Operation::Divide, var("a"));
    let tree = Element::from_operation(left, Operation::Power, right);
    assert_eq!(
        resolve(&tree, &names(&["a", "b"])),
        Ok(Resolved::Apply(
            Operation::Power,
            Box::new(Resolved::Apply(
                Operation::Subtract,
                Box::new(Resolved::Slot(0)),
                Box::new(Resolved::Slot(1))
            )),
            Box::new(Resolved::Apply(
                Operation::Divide,
                Box::new(Resolved::Slot(1)),
                Box::new(Resolved::Slot(0))
            ))
        ))
    );
}

#[test]
fn text_shows_every_group() {
    let tree = Element::from_operation(
        val(2),
        Operation::Add,
        Element::from_operation(val(3), Operation::Multiply, var("x")),
    );
    assert_eq!(tree.to_text(), "(2 + (3 * 'x'))");
    let powers = Element::from_operation(
        Element::from_operation(val(2), Operation::Power, val(3)),
        Operation::Divide,
        Element::from_operation(val(1), Operation::Subtract, val(4)),
    );
    assert_eq!(powers.to_text(), "((2 ^ 3) / (1 - 4))");
}

#[test]
fn text_of_leaves() {
    assert_eq!(val(0).to_text(), "0");
    assert_eq!(val(7).to_text(), "7");
    assert_eq!(val(1203).to_text(), "1203");
    assert_eq!(val(-5).to_text(), "-5");
    assert_eq!(val(i32::MAX).to_text(), "2147483647");
    assert_eq!(val(i32::MIN).to_text(), "-2147483648");
    assert_eq!(var("rate_2b").to_text(), "'rate_2b'");
}

#[test]
fn text_of_negation_and_binding() {
    assert_eq!(Element::negation(var("x")).to_text(), "(0 - 'x')");
    let body = Element::from_operation(var("x"), Operation::Add, val(1));
    let binding = Element::let_in("x".to_string(), val(10), body);
    assert_eq!(binding.to_text(), "(let x = 10; ('x' + 1))");
}
