use flp_math::evaluate::expression::{Evaluate, Node, Operator};
use num_traits::FromPrimitive;

/// Evaluates a parsed tree over double precision, substituting `x` for the
/// variable, the way a caller of the library combines the tree with floating
/// point (which the verified core does not hold).
fn eval(node: &Node, x: f64) -> f64 {
    match node {
        Node::Number(digits) => std::str::from_utf8(digits)
            .expect("numerals are ASCII")
            .parse::<f64>()
            .expect("numerals parse as doubles"),
        Node::Variable => x,
        Node::BinaryOp(b) => {
            let l = eval(&b.left, x);
            let r = eval(&b.right, x);
            match b.operator {
                Operator::Add => l + r,
                Operator::Sub => l - r,
                Operator::Mul => l * r,
                Operator::Div => l / r,
                Operator::Mod => l % r,
                Operator::Pow => l.powf(r),
                Operator::Log => l.log(r),
            }
        }
    }
}

fn parse(text: &str) -> Evaluate {
    Evaluate::try_from_str(text).expect("expected a syntactically valid expression")
}

#[test]
fn constant_ignores_input() {
    let e = parse("(6)");
    assert_eq!(e.node, Node::Number(b"6".to_vec()));
    assert_eq!(eval(&e.node, 9.0), 6.0);
}

#[test]
fn variable_echoes_input() {
    let e = parse("(x)");
    assert_eq!(e.node, Node::Variable);
    assert_eq!(eval(&e.node, 9.0), 9.0);
}

#[test]
fn nested_formula_evaluates() {
    let e = parse("(((2 * (x ^ 2)) - ((6 / x) + (25 log 5))) % 80)");
    assert_eq!(u8::from_f64(eval(&e.node, 7.0)), Some(15));
}

#[test]
fn nested_formula_with_loose_spacing() {
    let e = parse("(((2 * (x ^2))-((6/ x) +(25 log 5)))%80)");
    assert_eq!(u8::from_f64(eval(&e.node, 7.0)), Some(15));
}

#[test]
fn malformed_input_is_a_syntax_error() {
    assert!(Evaluate::try_from_str("(2 +)").is_err());
}

#[test]
fn division_by_zero_yields_ieee_infinity() {
    let e = parse("((1) / (0))");
    let out = eval(&e.node, 3.0);
    assert!(out.is_infinite() && out > 0.0);
    // A non-finite result cannot convert to an integer output type.
    assert_eq!(u64::from_f64(out), None);
}

#[test]
fn evaluation_is_deterministic() {
    let e = parse("(((2 * (x ^ 2)) - ((6 / x) + (25 log 5))) % 80)");
    let a = eval(&e.node, 7.5);
    let b = eval(&e.node, 7.5);
    assert_eq!(a.to_bits(), b.to_bits());
}

#[test]
fn to_text_renders_canonically() {
    let e = parse("(((2 * (x ^2))-((6/ x) +(25 log 5)))%80)");
    assert_eq!(e.to_text(), "(((2 * (x ^ 2)) - ((6 / x) + (25 log 5))) % 80)");
}

#[test]
fn to_text_wraps_leaves() {
    assert_eq!(parse("(6)").to_text(), "(6)");
    assert_eq!(parse("(x)").to_text(), "(x)");
}

#[test]
fn round_trip_reproduces_the_tree() {
    for text in [
        "(6)",
        "(x)",
        "(-2.5e3)",
        "(.5)",
        "(2.)",
        "(x + 1)",
        "((1) / (0))",
        "(((2 * (x ^2))-((6/ x) +(25 log 5)))%80)",
    ] {
        let first = parse(text);
        let rendered = first.to_text();
        let second = parse(&rendered);
        assert_eq!(first, second, "round trip changed the tree for {text}");
        assert_eq!(second.to_text(), rendered, "second rendering differs for {text}");
    }
}

#[test]
fn every_operator_parses() {
    for (text, op) in [
        ("(1 + 2)", Operator::Add),
        ("(1 - 2)", Operator::Sub),
        ("(1 * 2)", Operator::Mul),
        ("(1 / 2)", Operator::Div),
        ("(1 % 2)", Operator::Mod),
        ("(1 ^ 2)", Operator::Pow),
        ("(1 log 2)", Operator::Log),
    ] {
        let e = parse(text);
        match e.node {
            Node::BinaryOp(b) => assert_eq!(b.operator, op, "wrong operator for {text}"),
            other => panic!("expected a binary application for {text}, got {other:?}"),
        }
    }
}

#[test]
fn numerals_keep_signs_fractions_and_exponents() {
    for (text, digits) in [
        ("(-3)", "-3"),
        ("(+3)", "+3"),
        ("(2.5)", "2.5"),
        ("(.5)", ".5"),
        ("(2.)", "2."),
        ("(1e5)", "1e5"),
        ("(1E5)", "1E5"),
        ("(1.5e-2)", "1.5e-2"),
        ("(-2.5e3)", "-2.5e3"),
    ] {
        let e = parse(text);
        assert_eq!(e.node, Node::Number(digits.as_bytes().to_vec()), "for {text}");
    }
}

#[test]
fn leaves_admit_no_whitespace() {
    assert!(Evaluate::try_from_str("( 6)").is_err());
    assert!(Evaluate::try_from_str("(6 )").is_err());
    assert!(Evaluate::try_from_str("( x )").is_err());
}

#[test]
fn expressions_require_parentheses() {
    assert!(Evaluate::try_from_str("6").is_err());
    assert!(Evaluate::try_from_str("x").is_err());
    assert!(Evaluate::try_from_str("1 + 2").is_err());
    assert!(Evaluate::try_from_str("((1))").is_err());
}

#[test]
fn trailing_input_reports_offset_and_fragment() {
    let err = Evaluate::try_from_str("(6) ").unwrap_err();
    assert_eq!(err.offset, 3);
    assert_eq!(err.fragment, b" ".to_vec());

    let err = Evaluate::try_from_str("(x)(x)").unwrap_err();
    assert_eq!(err.offset, 3);
    assert_eq!(err.fragment, b"(x)".to_vec());
}

#[test]
fn failed_match_reports_the_whole_input() {
    let err = Evaluate::try_from_str("(2 +)").unwrap_err();
    assert_eq!(err.offset, 0);
    assert_eq!(err.fragment, b"(2 +)".to_vec());
}

#[test]
fn non_ascii_input_is_rejected() {
    assert!(Evaluate::try_from_str("(\u{e9})").is_err());
}

#[test]
fn nesting_beyond_the_cap_is_rejected() {
    let mut shallow = String::from("x");
    for _ in 0..10 {
        shallow = format!("(1 + {shallow})");
    }
    assert!(Evaluate::try_from_str(&shallow).is_ok());

    let mut deep = String::from("x");
    for _ in 0..100 {
        deep = format!("(1 + {deep})");
    }
    assert!(Evaluate::try_from_str(&deep).is_err());
}

#[test]
fn tabs_count_as_whitespace() {
    let e = parse("(1\t+\t2)");
    assert_eq!(eval(&e.node, 0.0), 3.0);
}
