use flp_math::evaluate::expression::atom::number;
use flp_math::evaluate::expression::operation::{n, operation, v, Operation};
use flp_math::evaluate::expression::Node;

#[test]
fn number_scans_the_longest_numeral() {
    let input = b"-12.5e+3)".to_vec();
    assert_eq!(number(&input, 0), Some(8));
    let input = b"12 + 3".to_vec();
    assert_eq!(number(&input, 0), Some(2));
    assert_eq!(number(&input, 5), Some(6));
    let input = b"x + 3".to_vec();
    assert_eq!(number(&input, 0), None);
}

#[test]
fn number_does_not_take_a_dangling_exponent_mark() {
    let input = b"2e + 3".to_vec();
    assert_eq!(number(&input, 0), Some(1));
}

#[test]
fn leaf_parsers_demand_their_exact_shape() {
    let num = b"(6)".to_vec();
    assert_eq!(n(&num, 0), Some((Node::Number(b"6".to_vec()), 3)));
    assert_eq!(v(&num, 0), None);

    let var = b"(x)".to_vec();
    assert_eq!(n(&var, 0), None);
    assert_eq!(v(&var, 0), Some((Node::Variable, 3)));

    let spaced = b"( 6)".to_vec();
    assert_eq!(n(&spaced, 0), None);
}

#[test]
fn operation_parses_at_an_offset_and_reports_the_end() {
    let input = b"..(1 + x)..".to_vec();
    let (node, end) = operation(&input, 2, 8).expect("expected a match");
    assert_eq!(end, 9);
    match node {
        Node::BinaryOp(b) => {
            assert_eq!(*b.left, Node::Number(b"1".to_vec()));
            assert_eq!(*b.right, Node::Variable);
        }
        other => panic!("expected a binary application, got {other:?}"),
    }
}

#[test]
fn operation_without_depth_rejects_nested_operands() {
    let input = b"(1 + (2 + 3))".to_vec();
    assert!(operation(&input, 0, 0).is_none());
    assert!(operation(&input, 0, 1).is_some());
}

#[test]
fn operands_expand_into_their_nodes() {
    assert_eq!(
        Operation::Number(b"2.5".to_vec()).into_node(),
        Node::Number(b"2.5".to_vec())
    );
    assert_eq!(Operation::Variable.into_node(), Node::Variable);
    assert_eq!(
        Operation::Subexpression(Box::new(Node::Variable)).into_node(),
        Node::Variable
    );
}
