use arith_expr::parser::element::Operation;
use arith_expr::parser::evaluator::{evaluate_closed, evaluate_with};
use arith_expr::parser::grammar::ParseError;
use arith_expr::parser::resolver::{resolve_with, EvalError, Resolved};
use arith_expr::parser::Expiration;

fn number(literal: i32) -> f64 {
    literal as f64
}

fn arithmetic(op: Operation, left: f64, right: f64) -> f64 {
    match op {
        Operation::Add => left + right,
        Operation::Subtract => left - right,
        Operation::Multiply => left * right,
        Operation::Divide => left / right,
        Operation::Power => left.powf(right),
    }
}

fn evaluate(src: &str, bindings: &[(&str, f64)]) -> Result<f64, EvalError> {
    let expression = Expiration::new(src).expect("the text parses");
    let environment: Vec<(String, f64)> =
        bindings.iter().map(|(n, v)| (n.to_string(), *v)).collect();
    expression.calculate(&environment, number, arithmetic)
}

#[test]
fn product_binds_tighter_than_sum() {
    assert_eq!(evaluate("2 + 3 * 4", &[]), Ok(14.0));
}

#[test]
fn grouping_overrides_precedence() {
    assert_eq!(evaluate("(2 + 3) * 4", &[]), Ok(20.0));
}

#[test]
fn exponent_groups_to_the_left() {
    assert_eq!(evaluate("2 ^ 3 ^ 2", &[]), Ok(64.0));
}

#[test]
fn exponent_binds_tighter_than_product() {
    assert_eq!(evaluate("2 * 3 ^ 2", &[]), Ok(18.0));
    assert_eq!(evaluate("2 ^ 3 * 2", &[]), Ok(16.0));
}

#[test]
fn subtraction_and_division_group_to_the_left() {
    assert_eq!(evaluate("10 - 4 - 3", &[]), Ok(3.0));
    assert_eq!(evaluate("8 / 4 / 2", &[]), Ok(1.0));
    assert_eq!(evaluate("8 / 4 * 2", &[]), Ok(4.0));
}

#[test]
fn negation_binds_between_sum_and_product() {
    assert_eq!(evaluate("-2 ^ 2", &[]), Ok(-4.0));
    assert_eq!(evaluate("-2 * 3", &[]), Ok(-6.0));
    assert_eq!(evaluate("- 3 + 4", &[]), Ok(1.0));
    assert_eq!(evaluate("2 - -3", &[]), Ok(5.0));
    assert_eq!(evaluate("2 * -3 * 4", &[]), Ok(-24.0));
    assert_eq!(evaluate("--5", &[]), Ok(5.0));
}

#[test]
fn division_by_zero_follows_floating_point() {
    assert_eq!(evaluate("1 / 0", &[]), Ok(f64::INFINITY));
    assert!(evaluate("0 / 0", &[]).unwrap().is_nan());
}

#[test]
fn all_three_delimiter_families_group() {
    assert_eq!(evaluate("{2 + 3} * [4 - 1]", &[]), Ok(15.0));
    assert_eq!(evaluate("([{7}])", &[]), Ok(7.0));
}

#[test]
fn redundant_grouping_is_transparent() {
    let nested = Expiration::new("((((5))))").unwrap();
    let plain = Expiration::new("5").unwrap();
    assert_eq!(nested.tree(), plain.tree());
    assert_eq!(evaluate("((((5))))", &[]), Ok(5.0));
}

#[test]
fn undefined_variable_fails() {
    assert_eq!(
        evaluate("x + 1", &[]),
        Err(EvalError::UndefinedVariable("x".to_string()))
    );
}

#[test]
fn defined_variable_is_read() {
    assert_eq!(evaluate("x + 1", &[("x", 4.0)]), Ok(5.0));
}

#[test]
fn left_operand_fails_first() {
    assert_eq!(
        evaluate("a + b", &[]),
        Err(EvalError::UndefinedVariable("a".to_string()))
    );
    assert_eq!(
        evaluate("a + b", &[("a", 1.0)]),
        Err(EvalError::UndefinedVariable("b".to_string()))
    );
}

#[test]
fn innermost_binding_wins() {
    assert_eq!(evaluate("x", &[("x", 1.0), ("y", 2.0), ("x", 3.0)]), Ok(3.0));
}

#[test]
fn let_binds_in_its_body() {
    assert_eq!(evaluate("let x = 10; x + 1", &[]), Ok(11.0));
}

#[test]
fn let_shadows_within_its_body_only() {
    assert_eq!(evaluate("let x = 1; (let x = 2; x) + x", &[]), Ok(3.0));
}

#[test]
fn let_is_not_visible_in_its_bound_expression() {
    assert_eq!(
        evaluate("let x = x + 1; x", &[]),
        Err(EvalError::UndefinedVariable("x".to_string()))
    );
    assert_eq!(evaluate("let x = x + 1; x", &[("x", 5.0)]), Ok(6.0));
}

#[test]
fn let_chain() {
    assert_eq!(evaluate("let a = 2; let b = a * 3; a + b", &[]), Ok(8.0));
}

#[test]
fn result_is_independent_of_forking() {
    let mut src = String::from("- 3 + x * 2 + y ^ (x * 3) + y / 2");
    for _ in 0..4 {
        src = format!("({src}) + ({src})");
    }
    let expression = Expiration::new(&src).unwrap();
    let names = vec!["x".to_string(), "y".to_string()];
    let sequential = resolve_with(expression.tree(), &names, 0).unwrap();
    let forked = resolve_with(expression.tree(), &names, 2).unwrap();
    let deep = resolve_with(expression.tree(), &names, 64).unwrap();
    assert_eq!(sequential, forked);
    assert_eq!(sequential, deep);
    let missing = vec!["x".to_string()];
    let a = resolve_with(expression.tree(), &missing, 0);
    let b = resolve_with(expression.tree(), &missing, 3);
    assert_eq!(a, Err(EvalError::UndefinedVariable("y".to_string())));
    assert_eq!(a, b);
    let both = vec![("x".to_string(), 1.5), ("y".to_string(), 2.0)];
    let plain = evaluate_with(expression.tree(), &both, number, arithmetic, 0);
    let wide = evaluate_with(expression.tree(), &both, number, arithmetic, 2);
    let wider = evaluate_with(expression.tree(), &both, number, arithmetic, 64);
    assert_eq!(plain, Ok(16.0 * (-3.0 + 3.0 + 2.0f64.powf(4.5) + 1.0)));
    assert_eq!(plain, wide);
    assert_eq!(plain, wider);
    let one = vec![("x".to_string(), 1.5)];
    assert_eq!(
        evaluate_with(expression.tree(), &one, number, arithmetic, 0),
        Err(EvalError::UndefinedVariable("y".to_string()))
    );
    assert_eq!(
        evaluate_with(expression.tree(), &one, number, arithmetic, 0),
        evaluate_with(expression.tree(), &one, number, arithmetic, 5)
    );
}

#[test]
fn arithmetic_may_be_any_kind_of_number() {
    let expression = Expiration::new("let k = 7; (k + n) * 3 - 10 / 4").unwrap();
    let exact = |op: Operation, l: i64, r: i64| match op {
        Operation::Add => l + r,
        Operation::Subtract => l - r,
        Operation::Multiply => l * r,
        Operation::Divide => l / r,
        Operation::Power => l.pow(r as u32),
    };
    assert_eq!(
        expression.calculate(&vec![("n".to_string(), 5i64)], |n| n as i64, exact),
        Ok(34)
    );
}

#[test]
fn closed_tree_is_evaluated_slot_by_slot() {
    let closed = Resolved::Bind(
        Box::new(Resolved::Apply(
            Operation::Multiply,
            Box::new(Resolved::Slot(0)),
            Box::new(Resolved::Constant(2)),
        )),
        Box::new(Resolved::Apply(
            Operation::Subtract,
            Box::new(Resolved::Slot(1)),
            Box::new(Resolved::Slot(0)),
        )),
    );
    assert_eq!(evaluate_closed(&closed, &vec![5.0], number, arithmetic, 0), 5.0);
    assert_eq!(evaluate_closed(&closed, &vec![5.0], number, arithmetic, 4), 5.0);
}

#[test]
fn doubling_keeps_parsing_and_doubles_the_value() {
    let mut src = String::from("1 + 2 * 3");
    let mut expected = 7.0;
    for _ in 0..12 {
        src = format!("({src}) + ({src})");
        expected *= 2.0;
        assert_eq!(evaluate(&src, &[]), Ok(expected));
    }
}

#[test]
fn the_sample_expression() {
    let src = "- 3 + x * 2 + y ^ (x * 3) + y / 2";
    let got = evaluate(src, &[("x", 1.0), ("y", 2.0)]).unwrap();
    assert_eq!(got, -3.0 + 2.0 + 8.0 + 1.0);
}

#[test]
fn unsupported_symbol_is_an_unknown_operator() {
    assert!(matches!(
        Expiration::new("2 $ 3"),
        Err(ParseError::UnknownOperator(2))
    ));
}
