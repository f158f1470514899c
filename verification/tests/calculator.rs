use better_spotlight::calculator::{parse_calculation, BinOp, Expr};

fn num(text: &str) -> Box<Expr> {
    Box::new(Expr::Number(text.to_string()))
}

fn bin(op: BinOp, lhs: Box<Expr>, rhs: Box<Expr>) -> Box<Expr> {
    Box::new(Expr::Binary(op, lhs, rhs))
}

#[test]
fn products_bind_tighter_than_sums() {
    assert_eq!(
        parse_calculation("2 + 3 * 4"),
        Some(*bin(BinOp::Add, num("2"), bin(BinOp::Multiply, num("3"), num("4"))))
    );
    assert_eq!(
        parse_calculation("(2 + 3) * 4"),
        Some(*bin(BinOp::Multiply, bin(BinOp::Add, num("2"), num("3")), num("4")))
    );
}

#[test]
fn power_is_right_associative_and_signs_are_unary() {
    assert_eq!(
        parse_calculation("2 ^ 3 ^ 2"),
        Some(*bin(BinOp::Power, num("2"), bin(BinOp::Power, num("3"), num("2"))))
    );
    assert_eq!(
        parse_calculation("-2.5 + 1"),
        Some(*bin(BinOp::Add, Box::new(Expr::Negate(num("2.5"))), num("1")))
    );
    assert_eq!(parse_calculation("+7"), Some(*num("7")));
    assert_eq!(
        parse_calculation("10 % 4"),
        Some(*bin(BinOp::Remainder, num("10"), num("4")))
    );
}

#[test]
fn sums_and_products_associate_to_the_left() {
    assert_eq!(
        parse_calculation("8 - 2 - 1"),
        Some(*bin(BinOp::Subtract, bin(BinOp::Subtract, num("8"), num("2")), num("1")))
    );
    assert_eq!(
        parse_calculation("8 / 2 / 2"),
        Some(*bin(BinOp::Divide, bin(BinOp::Divide, num("8"), num("2")), num("2")))
    );
}

#[test]
fn malformed_text_is_refused() {
    assert_eq!(parse_calculation("hello"), None);
    assert_eq!(parse_calculation("1 +"), None);
    assert_eq!(parse_calculation("(1 + 2"), None);
    assert_eq!(parse_calculation(""), None);
    assert_eq!(parse_calculation("1 2"), None);
    assert_eq!(parse_calculation("1.2.3"), None);
    assert_eq!(parse_calculation(". + 1"), None);
}

#[test]
fn outer_white_space_is_trimmed_and_inner_white_space_skipped() {
    assert_eq!(parse_calculation("\u{a0} 1 +\t2 \u{a0}"), Some(*bin(BinOp::Add, num("1"), num("2"))));
    assert_eq!(parse_calculation(".5"), Some(*num(".5")));
    assert_eq!(parse_calculation("1."), Some(*num("1.")));
}
