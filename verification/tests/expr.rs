use numsplit::expr::{Node, Op, Operation};

fn leaf(v: u64) -> Node {
    Node::Leaf(v)
}

fn node(a: Node, b: Node, op: Op) -> Node {
    Node::Operation(Box::new(Operation::new(a, b, op)))
}

#[test]
fn leaves_render_as_their_decimal_value() {
    assert_eq!(leaf(0).render(), "0");
    assert_eq!(leaf(7).render(), "7");
    assert_eq!(leaf(123).render(), "123");
    assert_eq!(leaf(u64::MAX).render(), "18446744073709551615");
}

#[test]
fn operations_render_fully_parenthesized() {
    let t = node(leaf(3), node(leaf(2), leaf(2), Op::Times), Op::Plus);
    assert_eq!(t.render(), "(3 + (2 * 2))");
    let u = node(node(leaf(1), leaf(4), Op::Plus), leaf(5), Op::Times);
    assert_eq!(u.render(), "((1 + 4) * 5)");
}

#[test]
fn evaluation_applies_the_operators() {
    let t = node(leaf(3), node(leaf(2), leaf(2), Op::Times), Op::Plus);
    assert_eq!(t.eval_value(), Some(7));
    assert_eq!(leaf(42).eval_value(), Some(42));
}

#[test]
fn evaluation_reports_overflow_instead_of_wrapping() {
    let s = node(leaf(u64::MAX), leaf(1), Op::Plus);
    assert_eq!(s.eval_value(), None);
    let p = node(leaf(u64::MAX), leaf(2), Op::Times);
    assert_eq!(p.eval_value(), None);
}

#[test]
fn leaves_within_checks_every_leaf() {
    let t = node(leaf(3), node(leaf(2), leaf(2), Op::Times), Op::Plus);
    assert!(t.leaves_within(&[2, 3]));
    assert!(t.leaves_within(&[3, 2, 9]));
    assert!(!t.leaves_within(&[3]));
    assert!(!t.leaves_within(&[]));
}

#[test]
fn operation_new_keeps_its_operands() {
    let o = Operation::new(leaf(1), leaf(2), Op::Plus);
    assert!(matches!(o.a, Node::Leaf(1)));
    assert!(matches!(o.b, Node::Leaf(2)));
    assert!(matches!(o.op, Op::Plus));
}
