use dice_primes::ast::{AstNode, Rat};

fn num(v: i64) -> AstNode {
    AstNode::Num(v)
}

fn add(l: AstNode, r: AstNode) -> AstNode {
    AstNode::Add(Box::new(l), Box::new(r))
}

fn sub(l: AstNode, r: AstNode) -> AstNode {
    AstNode::Sub(Box::new(l), Box::new(r))
}

fn mul(l: AstNode, r: AstNode) -> AstNode {
    AstNode::Mul(Box::new(l), Box::new(r))
}

fn div(l: AstNode, r: AstNode) -> AstNode {
    AstNode::Div(Box::new(l), Box::new(r))
}

#[test]
fn render_add() {
    assert_eq!(add(num(3), num(5)).render(), "(3+5)");
}

#[test]
fn render_mul_keeps_operand_parens() {
    assert_eq!(mul(add(num(3), num(5)), num(2)).render(), "(3+5)*2");
}

#[test]
fn render_nested_additive_strips_parens() {
    assert_eq!(add(num(1), add(num(2), num(3))).render(), "(1+2+3)");
}

#[test]
fn render_sub_right_operand_keeps_parens() {
    assert_eq!(sub(num(3), add(num(1), num(1))).render(), "(3-(1+1))");
}

#[test]
fn render_sub_left_operand_flattens() {
    assert_eq!(sub(add(num(1), num(2)), num(3)).render(), "(1+2-3)");
}

#[test]
fn render_div_right_product_gets_parens() {
    assert_eq!(div(num(6), mul(num(2), num(3))).render(), "6/(2*3)");
}

#[test]
fn render_div_right_quotient_gets_parens() {
    assert_eq!(div(num(6), div(num(3), num(1))).render(), "6/(3/1)");
}

#[test]
fn render_add_right_sub_keeps_inner_parens() {
    assert_eq!(add(num(1), sub(num(2), add(num(3), num(4)))).render(), "(1+2-(3+4))");
}

#[test]
fn render_div_has_no_own_parens() {
    assert_eq!(div(num(6), num(2)).render(), "6/2");
}

#[test]
fn render_mixed_keeps_multiplicative_child() {
    assert_eq!(add(mul(num(2), num(3)), num(1)).render(), "(2*3+1)");
}

#[test]
fn render_negative_leaf() {
    assert_eq!(num(-4).render(), "-4");
}

#[test]
fn render_is_stable() {
    let e = mul(add(num(3), num(5)), sub(num(6), num(2)));
    let first = e.render();
    let second = e.render();
    assert_eq!(first, second);
}

#[test]
fn simplify_additive() {
    assert_eq!(add(num(1), num(2)).simplify(), "1+2");
}

#[test]
fn simplify_keeps_multiplicative() {
    assert_eq!(mul(num(2), num(3)).simplify(), "2*3");
}

#[test]
fn evaluate_leaf() {
    assert_eq!(num(5).evaluate(), Some(Rat { num: 5, den: 1 }));
}

#[test]
fn evaluate_add() {
    assert_eq!(add(num(3), num(5)).evaluate(), Some(Rat { num: 8, den: 1 }));
}

#[test]
fn evaluate_div_fraction() {
    assert_eq!(div(num(1), num(3)).evaluate(), Some(Rat { num: 1, den: 3 }));
}

#[test]
fn evaluate_division_by_zero_is_none() {
    let e = div(num(1), sub(num(1), num(1)));
    assert_eq!(e.evaluate(), None);
}

#[test]
fn evaluate_is_idempotent() {
    let e = div(add(num(3), num(5)), sub(num(2), num(6)));
    let first = e.evaluate();
    let second = e.evaluate();
    assert_eq!(first, second);
    assert_eq!(first, Some(Rat { num: -8, den: 4 }));
}

#[test]
fn floor_rounds_toward_negative_infinity() {
    assert_eq!(Rat { num: 7, den: 2 }.floor(), 3);
    assert_eq!(Rat { num: -7, den: 2 }.floor(), -4);
    assert_eq!(Rat { num: 6, den: 3 }.floor(), 2);
}
