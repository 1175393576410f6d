use electrocute::number::is_decimal_number;
use electrocute::{
    apply_precedence, parse_expr, precedence, reorder_binop, take_binop, take_operand,
    take_operator, take_whitespace, BinaryOperator, Expression, ExpressionError,
};

fn number(digits: &str) -> Expression {
    Expression::Real(digits.to_string())
}

fn imaginary(digits: &str) -> Expression {
    Expression::Imaginary(digits.to_string())
}

fn variable(name: &str) -> Expression {
    Expression::Variable {
        name: name.to_string(),
        subscript: None,
    }
}

fn subscripted(name: &str, subscript: &str) -> Expression {
    Expression::Variable {
        name: name.to_string(),
        subscript: Some(subscript.to_string()),
    }
}

fn binop(op: BinaryOperator, lhs: Expression, rhs: Expression) -> Expression {
    Expression::Binop {
        op,
        lhs: Box::new(lhs),
        rhs: Box::new(rhs),
    }
}

fn bracketed(inner: Expression) -> Expression {
    Expression::Bracketed(Box::new(inner))
}

fn function(name: &str, arguments: Vec<Expression>) -> Expression {
    Expression::Function {
        name: name.to_string(),
        arguments,
    }
}

#[test]
fn test_simple_expr() {
    let (taken, _) = parse_expr("(1 + 2) + 3 * 4").unwrap();
    println!("{:?}", taken);
    assert_eq!(
        taken,
        binop(
            BinaryOperator::Add,
            bracketed(binop(BinaryOperator::Add, number("1"), number("2"))),
            binop(BinaryOperator::Multiply, number("3"), number("4")),
        )
    );
}

#[test]
fn test_variable_and_function() {
    let (taken, rest) = parse_expr("max(A_X, B, 2) this is the rest").unwrap();
    println!("{:?}", taken);
    assert_eq!(rest, "this is the rest");
    assert_eq!(
        taken,
        function(
            "max",
            vec![subscripted("A", "X"), variable("B"), number("2")]
        )
    );
}

#[test]
fn operators_are_read_in_order_of_the_table() {
    assert_eq!(
        take_operator("  ** 2"),
        Ok((BinaryOperator::Exponentiate, " 2"))
    );
    assert_eq!(take_operator("^2"), Ok((BinaryOperator::Exponentiate, "2")));
    assert_eq!(take_operator("+"), Ok((BinaryOperator::Add, "")));
    assert_eq!(take_operator("- 1"), Ok((BinaryOperator::Subtract, " 1")));
    assert_eq!(take_operator("*x"), Ok((BinaryOperator::Multiply, "x")));
    assert_eq!(take_operator("\t/x"), Ok((BinaryOperator::Divide, "x")));
    assert_eq!(take_operator("x"), Err(ExpressionError::UnknownOperator));
    assert_eq!(take_operator(""), Err(ExpressionError::UnknownOperator));
    assert_eq!(take_operator("   "), Err(ExpressionError::UnknownOperator));
}

#[test]
fn precedence_ranks() {
    assert_eq!(precedence(BinaryOperator::Phase), 4);
    assert_eq!(precedence(BinaryOperator::Exponentiate), 3);
    assert_eq!(precedence(BinaryOperator::Multiply), 2);
    assert_eq!(precedence(BinaryOperator::Divide), 1);
    assert_eq!(precedence(BinaryOperator::Add), 0);
    assert_eq!(precedence(BinaryOperator::Subtract), 0);
}

#[test]
fn white_space_is_taken_off_the_start() {
    assert_eq!(take_whitespace("  \t x y "), "x y ");
    assert_eq!(take_whitespace("x"), "x");
    assert_eq!(take_whitespace(""), "");
    assert_eq!(take_whitespace(" \n "), "");
    assert_eq!(take_whitespace("\u{a0}\u{2003}x"), "x");
}

#[test]
fn operands() {
    assert_eq!(take_operand("42 rest"), Ok((number("42"), "rest")));
    assert_eq!(take_operand("  1e5+2"), Ok((number("1e5"), "+2")));
    assert_eq!(take_operand("inf"), Ok((number("inf"), "")));
    assert_eq!(take_operand("NaN"), Ok((number("NaN"), "")));
    assert_eq!(take_operand("x"), Ok((variable("x"), "")));
    assert_eq!(take_operand("1k"), Ok((variable("1k"), "")));
    assert_eq!(take_operand("1\u{b5} x"), Ok((variable("1\u{b5}"), "x")));
    assert_eq!(take_operand("V_out_2 "), Ok((subscripted("V", "out_2"), "")));
    assert_eq!(take_operand("_x"), Ok((subscripted("", "x"), "")));
    assert_eq!(take_operand("2i"), Ok((imaginary("2"), "")));
    assert_eq!(take_operand("j3"), Ok((imaginary("3"), "")));
    assert_eq!(take_operand("1e2j*2"), Ok((imaginary("1e2"), "*2")));
    assert_eq!(take_operand("+1"), Ok((variable(""), "+1")));
    assert_eq!(take_operand("1.5"), Ok((number("1"), ".5")));
    assert_eq!(
        take_operand("( 1 )x"),
        Ok((bracketed(number("1")), "x"))
    );
    assert_eq!(
        take_operand("f ( a , b )  c"),
        Ok((function("f", vec![variable("a"), variable("b")]), "  c"))
    );
    assert_eq!(
        take_operand("((a))"),
        Ok((bracketed(bracketed(variable("a"))), ""))
    );
}

#[test]
fn operands_that_fail() {
    assert_eq!(take_operand(""), Err(ExpressionError::UnknownOperand));
    assert_eq!(take_operand("   "), Err(ExpressionError::UnknownOperand));
    assert_eq!(take_operand("(1"), Err(ExpressionError::UnknownOperand));
    assert_eq!(take_operand("((1)"), Err(ExpressionError::UnknownOperand));
    assert_eq!(take_operand("()"), Err(ExpressionError::UnknownOperand));
    assert_eq!(take_operand("f(1"), Err(ExpressionError::InvalidFunction));
    assert_eq!(take_operand("f()"), Err(ExpressionError::UnknownOperand));
    assert_eq!(take_operand("f(1,)"), Err(ExpressionError::UnknownOperand));
    assert_eq!(
        take_operand("f(g(a,b),c)"),
        Err(ExpressionError::InvalidFunction)
    );
    assert_eq!(take_operand("i"), Err(ExpressionError::FailedToParseFloat));
    assert_eq!(take_operand("pi"), Err(ExpressionError::FailedToParseFloat));
    assert_eq!(take_operand("xj"), Err(ExpressionError::FailedToParseFloat));
    assert_eq!(take_operand("sin"), Err(ExpressionError::UnknownOperand));
    assert_eq!(take_operand("ii"), Err(ExpressionError::UnknownOperand));
    assert_eq!(take_operand("infi"), Err(ExpressionError::UnknownOperand));
}

#[test]
fn operations_join_from_the_left() {
    assert_eq!(
        take_binop("1 - 2 - 3"),
        Ok((
            binop(
                BinaryOperator::Subtract,
                binop(BinaryOperator::Subtract, number("1"), number("2")),
                number("3")
            ),
            ""
        ))
    );
    assert_eq!(
        take_binop("1 + 2 * 3 rest"),
        Ok((
            binop(
                BinaryOperator::Multiply,
                binop(BinaryOperator::Add, number("1"), number("2")),
                number("3")
            ),
            "rest"
        ))
    );
    assert_eq!(take_binop("1 +"), Err(ExpressionError::UnknownOperand));
    assert_eq!(take_binop("a   "), Ok((variable("a"), "")));
}

#[test]
fn precedence_moves_weaker_operators_to_the_root() {
    assert_eq!(
        parse_expr("1 + 2 * 3"),
        Ok((
            binop(
                BinaryOperator::Add,
                number("1"),
                binop(BinaryOperator::Multiply, number("2"), number("3"))
            ),
            ""
        ))
    );
    assert_eq!(
        parse_expr("1 * 2 + 3"),
        Ok((
            binop(
                BinaryOperator::Add,
                binop(BinaryOperator::Multiply, number("1"), number("2")),
                number("3")
            ),
            ""
        ))
    );
    assert_eq!(
        parse_expr(" a ** 2 / b "),
        Ok((
            binop(
                BinaryOperator::Divide,
                binop(BinaryOperator::Exponentiate, variable("a"), number("2")),
                variable("b")
            ),
            ""
        ))
    );
    assert_eq!(
        parse_expr("f(1 + 2 * 3)"),
        Ok((
            function(
                "f",
                vec![binop(
                    BinaryOperator::Add,
                    number("1"),
                    binop(BinaryOperator::Multiply, number("2"), number("3"))
                )]
            ),
            ""
        ))
    );
}

#[test]
fn reorder_rotates_once_for_each_rank() {
    let left = binop(BinaryOperator::Add, number("1"), number("2"));
    assert_eq!(
        reorder_binop(BinaryOperator::Multiply, left, number("3")),
        binop(
            BinaryOperator::Add,
            number("1"),
            binop(BinaryOperator::Multiply, number("2"), number("3"))
        )
    );
    let right = binop(BinaryOperator::Add, number("2"), number("3"));
    assert_eq!(
        reorder_binop(BinaryOperator::Multiply, number("1"), right),
        binop(
            BinaryOperator::Add,
            binop(BinaryOperator::Multiply, number("1"), number("2")),
            number("3")
        )
    );
    assert_eq!(
        reorder_binop(BinaryOperator::Add, number("1"), number("2")),
        binop(BinaryOperator::Add, number("1"), number("2"))
    );
    let same = binop(BinaryOperator::Multiply, number("1"), number("2"));
    assert_eq!(
        reorder_binop(BinaryOperator::Multiply, same, number("3")),
        binop(
            BinaryOperator::Multiply,
            binop(BinaryOperator::Multiply, number("1"), number("2")),
            number("3")
        )
    );
    let inner = bracketed(binop(BinaryOperator::Multiply, variable("a"), binop(BinaryOperator::Add, variable("b"), variable("c"))));
    assert_eq!(
        apply_precedence(inner),
        bracketed(binop(
            BinaryOperator::Add,
            binop(BinaryOperator::Multiply, variable("a"), variable("b")),
            variable("c")
        ))
    );
}

#[test]
fn decimal_numbers_are_what_the_standard_library_reads() {
    let cases = [
        "0", "1", "42", "1e5", "1E5", "1e+5", "1e-5", "1.", ".5", "1.5", "1.5e3", "+1", "-1",
        "+.5e-3", "inf", "INF", "Infinity", "-infinity", "nan", "NaN", "+nan", "", "+", "-", ".",
        "e5", "1e", "1e+", "1.5.2", "1 ", " 1", "1_000", "0x10", "1k", "in", "infinit",
        "infinityy", "na", "1e5e5", "--1", "1-", "١", "1.e5", ".e5", "1f", "5.", "0.0", "00",
        "+.", "1e0", "i", "infi", "+inf", "-NAN", "1d5",
    ];
    for text in cases {
        assert_eq!(
            is_decimal_number(text),
            text.parse::<f64>().is_ok(),
            "{:?}",
            text
        );
    }
}
