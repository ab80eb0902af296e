use arith_expr::parser::element::{Element, Operation};
use arith_expr::parser::grammar::ParseError;
use arith_expr::parser::lexer::tokenize;
use arith_expr::parser::precedence::parse_tokens;
use arith_expr::parser::Expiration;

fn parse(src: &str) -> Result<Element, ParseError> {
    parse_tokens(&tokenize(src).expect("the text has tokens"))
}

fn val(v: i32) -> Element {
    Element::from_val(v)
}

fn var(name: &str) -> Element {
    Element::from_var(name.to_string())
}

fn op(l: Element, o: Operation, r: Element) -> Element {
    Element::from_operation(l, o, r)
}

#[test]
fn a_number_is_a_leaf() {
    assert_eq!(parse("5"), Ok(val(5)));
}

#[test]
fn a_name_is_a_leaf() {
    assert_eq!(parse("rate"), Ok(var("rate")));
}

#[test]
fn product_is_the_right_operand_of_sum() {
    assert_eq!(
        parse("2 + 3 * 4"),
        Ok(op(val(2), Operation::Add, op(val(3), Operation::Multiply, val(4))))
    );
}

#[test]
fn sum_after_product_takes_the_product() {
    assert_eq!(
        parse("2 * 3 + 4"),
        Ok(op(op(val(2), Operation::Multiply, val(3)), Operation::Add, val(4)))
    );
}

#[test]
fn group_is_the_left_operand_of_product() {
    assert_eq!(
        parse("(2 + 3) * 4"),
        Ok(op(op(val(2), Operation::Add, val(3)), Operation::Multiply, val(4)))
    );
}

#[test]
fn operators_of_one_power_group_to_the_left() {
    assert_eq!(
        parse("1 - 2 + 3"),
        Ok(op(op(val(1), Operation::Subtract, val(2)), Operation::Add, val(3)))
    );
    assert_eq!(
        parse("8 / 4 * 2"),
        Ok(op(op(val(8), Operation::Divide, val(4)), Operation::Multiply, val(2)))
    );
    assert_eq!(
        parse("2 ^ 3 ^ 2"),
        Ok(op(op(val(2), Operation::Power, val(3)), Operation::Power, val(2)))
    );
}

#[test]
fn negation_is_zero_minus_the_operand() {
    assert_eq!(parse("-x"), Ok(op(val(0), Operation::Subtract, var("x"))));
    assert_eq!(parse("-x"), Ok(Element::negation(var("x"))));
}

#[test]
fn negation_takes_products_and_leaves_sums() {
    assert_eq!(
        parse("-a * b + c"),
        Ok(op(
            Element::negation(op(var("a"), Operation::Multiply, var("b"))),
            Operation::Add,
            var("c")
        ))
    );
    assert_eq!(
        parse("a ^ -b * c"),
        Ok(op(
            var("a"),
            Operation::Power,
            Element::negation(op(var("b"), Operation::Multiply, var("c")))
        ))
    );
}

#[test]
fn binding_holds_bound_expression_and_body() {
    assert_eq!(
        parse("let x = 10; x + 1"),
        Ok(Element::let_in(
            "x".to_string(),
            val(10),
            op(var("x"), Operation::Add, val(1))
        ))
    );
}

#[test]
fn body_of_a_binding_extends_to_the_end_of_its_group() {
    assert_eq!(
        parse("let x = 1; (let x = 2; x) + x"),
        Ok(Element::let_in(
            "x".to_string(),
            val(1),
            op(
                Element::let_in("x".to_string(), val(2), var("x")),
                Operation::Add,
                var("x")
            )
        ))
    );
}

#[test]
fn sample_expression_has_the_expected_tree() {
    let expected = op(
        op(
            op(
                op(
                    Element::negation(val(3)),
                    Operation::Add,
                    op(var("x"), Operation::Multiply, val(2)),
                ),
                Operation::Add,
                op(
                    var("y"),
                    Operation::Power,
                    op(var("x"), Operation::Multiply, val(3)),
                ),
            ),
            Operation::Add,
            op(var("y"), Operation::Divide, val(2)),
        ),
        Operation::Add,
        val(1),
    );
    assert_eq!(parse("- 3 + x * 2 + y ^ (x * 3) + y / 2 + 1"), Ok(expected));
}

#[test]
fn mismatched_families_are_rejected() {
    assert_eq!(parse("(3 + 4]"), Err(ParseError::MismatchedScope(4)));
    assert_eq!(parse("{1 + 2)"), Err(ParseError::MismatchedScope(4)));
    assert_eq!(parse("[1}"), Err(ParseError::MismatchedScope(2)));
    assert_eq!(parse("([1)]"), Err(ParseError::MismatchedScope(3)));
}

#[test]
fn closing_delimiter_without_a_group_is_mismatched() {
    assert_eq!(parse("1 + 2)"), Err(ParseError::MismatchedScope(3)));
    assert_eq!(parse("(1))"), Err(ParseError::MismatchedScope(3)));
}

#[test]
fn closing_delimiter_where_an_operand_is_expected_is_mismatched_if_it_closes_nothing() {
    assert_eq!(parse(")"), Err(ParseError::MismatchedScope(0)));
    assert_eq!(parse("(]"), Err(ParseError::MismatchedScope(1)));
    assert_eq!(parse("1 + }"), Err(ParseError::MismatchedScope(2)));
    assert_eq!(parse("{1 + ]"), Err(ParseError::MismatchedScope(3)));
}

#[test]
fn mismatched_scope_comes_before_any_other_fault() {
    assert_eq!(parse("1 2 )"), Err(ParseError::MismatchedScope(2)));
    assert_eq!(parse("* )"), Err(ParseError::MismatchedScope(1)));
    assert_eq!(parse("1 + + (2] 3"), Err(ParseError::MismatchedScope(5)));
    assert_eq!(parse("(1 2"), Err(ParseError::IncompleteExpression));
}

#[test]
fn closing_delimiter_that_matches_its_opener_is_never_mismatched() {
    assert_eq!(parse("(let x = 1)"), Err(ParseError::UnexpectedToken(5)));
    assert_eq!(parse("()"), Err(ParseError::UnexpectedToken(1)));
    assert_eq!(parse("(1 + )"), Err(ParseError::UnexpectedToken(3)));
    assert_eq!(parse("let x = 1)"), Err(ParseError::MismatchedScope(4)));
    assert_eq!(parse("(let x = 1]"), Err(ParseError::MismatchedScope(5)));
}

#[test]
fn operand_where_an_operator_is_expected_is_incomplete() {
    assert_eq!(parse("1 2"), Err(ParseError::IncompleteExpression));
    assert_eq!(parse("1 (2)"), Err(ParseError::IncompleteExpression));
    assert_eq!(parse("x y"), Err(ParseError::IncompleteExpression));
    assert_eq!(parse("(1) 2"), Err(ParseError::IncompleteExpression));
    assert_eq!(parse("(1 2)"), Err(ParseError::IncompleteExpression));
    assert_eq!(parse("1 + 2 3 + 4"), Err(ParseError::IncompleteExpression));
    assert_eq!(parse("let x = 1 2; 3"), Err(ParseError::IncompleteExpression));
}

#[test]
fn input_that_ends_too_early_is_incomplete() {
    assert_eq!(parse(""), Err(ParseError::IncompleteExpression));
    assert_eq!(parse("1 +"), Err(ParseError::IncompleteExpression));
    assert_eq!(parse("(1 + 2"), Err(ParseError::IncompleteExpression));
    assert_eq!(parse("-"), Err(ParseError::IncompleteExpression));
    assert_eq!(parse("let"), Err(ParseError::IncompleteExpression));
    assert_eq!(parse("let x"), Err(ParseError::IncompleteExpression));
    assert_eq!(parse("let x ="), Err(ParseError::IncompleteExpression));
    assert_eq!(parse("let x = 1"), Err(ParseError::IncompleteExpression));
    assert_eq!(parse("let x = 1;"), Err(ParseError::IncompleteExpression));
}

#[test]
fn token_out_of_place_is_unexpected() {
    assert_eq!(parse("* 2"), Err(ParseError::UnexpectedToken(0)));
    assert_eq!(parse("1 + * 2"), Err(ParseError::UnexpectedToken(2)));
    assert_eq!(parse("()"), Err(ParseError::UnexpectedToken(1)));
    assert_eq!(parse("(1 + )"), Err(ParseError::UnexpectedToken(3)));
    assert_eq!(parse("1 let"), Err(ParseError::UnexpectedToken(1)));
    assert_eq!(parse("x = 1"), Err(ParseError::UnexpectedToken(1)));
    assert_eq!(parse("1; 2"), Err(ParseError::UnexpectedToken(1)));
    assert_eq!(parse("(1; 2)"), Err(ParseError::UnexpectedToken(2)));
    assert_eq!(parse("= 1"), Err(ParseError::UnexpectedToken(0)));
}

#[test]
fn malformed_binding_is_unexpected_where_it_goes_wrong() {
    assert_eq!(parse("let 1 = 2; 3"), Err(ParseError::UnexpectedToken(1)));
    assert_eq!(parse("let x 1; 3"), Err(ParseError::UnexpectedToken(2)));
    assert_eq!(parse("let let = 1; 2"), Err(ParseError::UnexpectedToken(1)));
    assert_eq!(parse("let x = 1; 2; 3"), Err(ParseError::UnexpectedToken(6)));
}

#[test]
fn let_is_a_keyword() {
    assert_eq!(parse("1 + let"), Err(ParseError::UnexpectedToken(2)));
    assert_eq!(parse("2 * let x = 1; x"), Err(ParseError::UnexpectedToken(2)));
    assert_eq!(
        parse("let x = let y = 1; y; x"),
        Err(ParseError::UnexpectedToken(3))
    );
}

#[test]
fn constructor_reports_lexer_errors_as_parse_errors() {
    assert!(matches!(
        Expiration::new("2 # 3"),
        Err(ParseError::UnknownOperator(2))
    ));
    assert!(matches!(
        Expiration::new("2 + 4294967296"),
        Err(ParseError::LiteralOutOfRange(4))
    ));
}

#[test]
fn constructor_reports_parse_errors() {
    assert!(matches!(
        Expiration::new("(3 + 4]"),
        Err(ParseError::MismatchedScope(4))
    ));
    assert!(matches!(
        Expiration::new("3 +"),
        Err(ParseError::IncompleteExpression)
    ));
    assert!(matches!(
        Expiration::new("3 4"),
        Err(ParseError::IncompleteExpression)
    ));
    assert!(matches!(
        Expiration::new("3 = 4"),
        Err(ParseError::UnexpectedToken(1))
    ));
    assert!(matches!(
        Expiration::new(")"),
        Err(ParseError::MismatchedScope(0))
    ));
}

#[test]
fn constructor_keeps_the_tree() {
    let expression = Expiration::new("2 + 3 * 4").unwrap();
    assert_eq!(
        expression.tree(),
        &op(val(2), Operation::Add, op(val(3), Operation::Multiply, val(4)))
    );
}

#[test]
fn grouping_with_any_family_gives_the_same_tree() {
    let plain = parse("1 + 2 * x").unwrap();
    assert_eq!(parse("(1 + 2 * x)"), Ok(parse("1 + 2 * x").unwrap()));
    assert_eq!(parse("{1 + 2 * x}").unwrap(), plain);
    assert_eq!(parse("[[1 + 2 * x]]").unwrap(), plain);
}

#[test]
fn doubling_gives_the_sum_of_the_tree_and_itself() {
    let src = "let a = 2; a * b - 1";
    let doubled = format!("({src}) + ({src})");
    assert_eq!(
        parse(&doubled),
        Ok(op(parse(src).unwrap(), Operation::Add, parse(src).unwrap()))
    );
}

#[test]
fn deep_nesting_parses() {
    let mut src = String::from("x");
    for _ in 0..2000 {
        src = format!("({src})");
    }
    assert_eq!(parse(&src), Ok(var("x")));
}

#[test]
fn text_of_a_constant_tree_parses_to_the_tree() {
    for src in ["2 + 3 * 4", "2 ^ 3 ^ 2", "(1 - 2) / (3 - 4 - 5)", "8 / 4 / 2 * (7 + 1)"] {
        let tree = parse(src).unwrap();
        assert_eq!(parse(&tree.to_text()), Ok(parse(src).unwrap()));
    }
    assert_eq!(parse("2 + 3 * 4").unwrap().to_text(), "(2 + (3 * 4))");
    assert_eq!(parse("2 ^ 3 ^ 2").unwrap().to_text(), "((2 ^ 3) ^ 2)");
    assert_eq!(parse("-2 * 3").unwrap().to_text(), "(0 - (2 * 3))");
}
