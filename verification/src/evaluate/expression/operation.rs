use vstd::prelude::*;

use crate::evaluate::expression::atom::{
    self, scan_number, scan_digits, scan_space, scan_operator, LEFT_PAREN, RIGHT_PAREN, LOWER_X,
};
use crate::evaluate::expression::{Expr, Node, BinaryOperation, node_view, wf_expr, operand_nesting, expr_nesting};
use vstd::slice::{slice_subrange, slice_to_vec};

verus! {

// The parser commits to the first alternative whose prefix matches
// (ordered choice): a bare numeral, then the bare variable, then a
// parenthesized subexpression; and for a whole expression, a number leaf,
// then a variable leaf, then a binary application.  Every spec function
// returns what the alternative consumes from the front of its input.
/// `"(" number ")"`: a number leaf, with what it consumes.
pub open spec fn leaf_number(s: Seq<u8>) -> Option<(Expr, int)> {
    if s.len() > 0 && s[0] == LEFT_PAREN {
        let t = s.skip(1);
        match scan_number(t) {
            Some(end) => if end < t.len() && t[end] == RIGHT_PAREN {
                Some((Expr::Num(t.subrange(0, end)), 2 + end))
            } else {
                None
            },
            None => None,
        }
    } else {
        None
    }
}

/// `"(" variable ")"`: a variable leaf, with what it consumes.
pub open spec fn leaf_variable(s: Seq<u8>) -> Option<(Expr, int)> {
    if s.len() >= 3 && s[0] == LEFT_PAREN && s[1] == LOWER_X && s[2] == RIGHT_PAREN {
        Some((Expr::Var, 3int))
    } else {
        None
    }
}

/// `"(" ws? operand ws? operator ws? operand ws? ")"`: a binary
/// application, with what it consumes.  `depth` bounds how deeply operands
/// may nest further parenthesized subexpressions.
pub open spec fn parse_binary(s: Seq<u8>, depth: nat) -> Option<(Expr, int)>
    decreases depth, 1nat,
{
    if s.len() > 0 && s[0] == LEFT_PAREN {
        let p1 = 1 + scan_space(s.skip(1));
        match parse_operand(s.skip(p1), depth) {
            Some(lc) => {
                let p2 = p1 + lc.1;
                let p3 = p2 + scan_space(s.skip(p2));
                match scan_operator(s.skip(p3)) {
                    Some(oc) => {
                        let p4 = p3 + oc.1;
                        let p5 = p4 + scan_space(s.skip(p4));
                        match parse_operand(s.skip(p5), depth) {
                            Some(rc) => {
                                let p6 = p5 + rc.1;
                                let p7 = p6 + scan_space(s.skip(p6));
                                if p7 < s.len() && s[p7] == RIGHT_PAREN {
                                    Some(
                                        (
                                            Expr::Bin(oc.0, Box::new(lc.0), Box::new(rc.0)),
                                            p7 + 1,
                                        ),
                                    )
                                } else {
                                    None
                                }
                            },
                            None => None,
                        }
                    },
                    None => None,
                }
            },
            None => None,
        }
    } else {
        None
    }
}

/// An operand: a bare numeral, the bare variable, or a nested expression,
/// in that order of preference.
pub open spec fn parse_operand(s: Seq<u8>, depth: nat) -> Option<(Expr, int)>
    decreases depth, 0nat,
{
    match scan_number(s) {
        Some(end) => Some((Expr::Num(s.subrange(0, end)), end)),
        None => if s.len() > 0 && s[0] == LOWER_X {
            Some((Expr::Var, 1int))
        } else if depth > 0 {
            parse_expr(s, (depth - 1) as nat)
        } else {
            None
        },
    }
}

/// A whole expression: a number leaf, a variable leaf, or a binary
/// application, in that order of preference.
pub open spec fn parse_expr(s: Seq<u8>, depth: nat) -> Option<(Expr, int)>
    decreases depth, 2nat,
{
    match leaf_number(s) {
        Some(r) => Some(r),
        None => match leaf_variable(s) {
            Some(r) => Some(r),
            None => parse_binary(s, depth),
        },
    }
}

/// A successful parse consumes at least one and at most all bytes, and the
/// tree it builds is well formed and nests no deeper than `depth`.
pub proof fn lemma_parse_operand_sound(s: Seq<u8>, depth: nat)
    ensures
        parse_operand(s, depth) matches Some(rc) ==> 0 < rc.1 <= s.len() && wf_expr(rc.0)
            && operand_nesting(rc.0) <= depth,
    decreases depth, 0nat,
{
    atom::lemma_scan_number_bounds(s);
    if scan_number(s) is Some {
        lemma_scan_number_prefix(s);
    } else if s.len() > 0 && s[0] == LOWER_X {
    } else if depth > 0 {
        lemma_parse_expr_sound(s, (depth - 1) as nat);
    }
}

pub proof fn lemma_parse_binary_sound(s: Seq<u8>, depth: nat)
    ensures
        parse_binary(s, depth) matches Some(rc) ==> 0 < rc.1 <= s.len() && wf_expr(rc.0)
            && expr_nesting(rc.0) <= depth && rc.0 is Bin,
    decreases depth, 1nat,
{
    if s.len() > 0 && s[0] == LEFT_PAREN {
        atom::lemma_scan_space_bounds(s.skip(1));
        let p1 = 1 + scan_space(s.skip(1));
        lemma_parse_operand_sound(s.skip(p1), depth);
        match parse_operand(s.skip(p1), depth) {
            Some(lc) => {
                let p2 = p1 + lc.1;
                atom::lemma_scan_space_bounds(s.skip(p2));
                let p3 = p2 + scan_space(s.skip(p2));
                match scan_operator(s.skip(p3)) {
                    Some(oc) => {
                        assert(oc.1 <= s.skip(p3).len());
                        let p4 = p3 + oc.1;
                        atom::lemma_scan_space_bounds(s.skip(p4));
                        let p5 = p4 + scan_space(s.skip(p4));
                        lemma_parse_operand_sound(s.skip(p5), depth);
                        match parse_operand(s.skip(p5), depth) {
                            Some(rc) => {
                                let p6 = p5 + rc.1;
                                atom::lemma_scan_space_bounds(s.skip(p6));
                                let p7 = p6 + scan_space(s.skip(p6));
                                if p7 < s.len() && s[p7] == RIGHT_PAREN {
                                    let e = Expr::Bin(oc.0, Box::new(lc.0), Box::new(rc.0));
                                    assert(wf_expr(e));
                                    assert(expr_nesting(e) <= depth);
                                    assert(parse_binary(s, depth) == Some((e, p7 + 1)));
                                }
                            },
                            None => {},
                        }
                    },
                    None => {},
                }
            },
            None => {},
        }
    }
}

pub proof fn lemma_parse_expr_sound(s: Seq<u8>, depth: nat)
    ensures
        parse_expr(s, depth) matches Some(rc) ==> 0 < rc.1 <= s.len() && wf_expr(rc.0)
            && expr_nesting(rc.0) <= depth,
    decreases depth, 2nat,
{
    if leaf_number(s) is Some {
        let t = s.skip(1);
        atom::lemma_scan_number_bounds(t);
        lemma_scan_number_prefix(t);
    } else if leaf_variable(s) is Some {
    } else {
        lemma_parse_binary_sound(s, depth);
    }
}

/// A numeral that the scanner ends at `k` is, taken alone, a numeral the
/// scanner consumes whole.
pub proof fn lemma_scan_number_prefix(s: Seq<u8>)
    ensures
        scan_number(s) matches Some(k) ==> scan_number(s.subrange(0, k)) == Some(k),
{
    match scan_number(s) {
        Some(k) => {
            atom::lemma_scan_number_bounds(s);
            let u = s.subrange(0, k);
            let p: int = if s.len() > 0 && atom::is_sign(s[0]) {
                1
            } else {
                0
            };
            let t = s.skip(p);
            let tu = u.skip(p);
            assert(u[0] == s[0]);
            assert(tu =~= t.subrange(0, k - p));
            lemma_scan_number_tail_prefix(t, k - p);
            assert(scan_number(u) == Some(k)) by {
                if p == 1 {
                    assert(u.len() > 0 && atom::is_sign(u[0]));
                } else {
                    assert(!(u.len() > 0 && atom::is_sign(u[0])));
                }
            }
        },
        None => {},
    }
}

/// Helper for the prefix lemma, on the input after the optional sign.
proof fn lemma_scan_number_tail_prefix(t: Seq<u8>, k: int)
    requires
        ({
            let after_sign = if t.len() > 0 && atom::is_digit(t[0]) {
                let d = scan_digits(t);
                let f: int = if d < t.len() && t[d] == atom::DOT {
                    1 + scan_digits(t.skip(d + 1))
                } else {
                    0
                };
                Some(d + f + atom::scan_exponent(t.skip(d + f)))
            } else if t.len() > 1 && t[0] == atom::DOT && atom::is_digit(t[1]) {
                let d = 1 + scan_digits(t.skip(1));
                Some(d + atom::scan_exponent(t.skip(d)))
            } else {
                None::<int>
            };
            after_sign == Some(k)
        }),
    ensures
        ({
            let u = t.subrange(0, k);
            let after_sign_u = if u.len() > 0 && atom::is_digit(u[0]) {
                let d = scan_digits(u);
                let f: int = if d < u.len() && u[d] == atom::DOT {
                    1 + scan_digits(u.skip(d + 1))
                } else {
                    0
                };
                Some(d + f + atom::scan_exponent(u.skip(d + f)))
            } else if u.len() > 1 && u[0] == atom::DOT && atom::is_digit(u[1]) {
                let d = 1 + scan_digits(u.skip(1));
                Some(d + atom::scan_exponent(u.skip(d)))
            } else {
                None::<int>
            };
            after_sign_u == Some(k)
        }),
{
    let u = t.subrange(0, k);
    if t.len() > 0 && atom::is_digit(t[0]) {
        let d = scan_digits(t);
        let f: int = if d < t.len() && t[d] == atom::DOT {
            1 + scan_digits(t.skip(d + 1))
        } else {
            0
        };
        let e = atom::scan_exponent(t.skip(d + f));
        atom::lemma_scan_digits_bounds(t);
        atom::lemma_scan_exponent_bounds(t.skip(d + f));
        if d < t.len() && t[d] == atom::DOT {
            atom::lemma_scan_digits_bounds(t.skip(d + 1));
        }
        assert(k == d + f + e);
        lemma_scan_digits_take(t, d, k);
        assert(scan_digits(u) == d);
        if f > 0 {
            assert(u[d] == t[d]);
            assert(u.skip(d + 1) =~= t.skip(d + 1).subrange(0, k - d - 1));
            lemma_scan_digits_take(t.skip(d + 1), f - 1, k - d - 1);
            assert(scan_digits(u.skip(d + 1)) == f - 1);
        } else {
            if d < u.len() {
                assert(u[d] == t[d]);
            }
        }
        assert(u.skip(d + f) =~= t.skip(d + f).subrange(0, e));
        lemma_scan_exponent_take(t.skip(d + f), e);
    } else if t.len() > 1 && t[0] == atom::DOT && atom::is_digit(t[1]) {
        let d = 1 + scan_digits(t.skip(1));
        let e = atom::scan_exponent(t.skip(d));
        atom::lemma_scan_digits_bounds(t.skip(1));
        atom::lemma_scan_exponent_bounds(t.skip(d));
        assert(k == d + e);
        assert(u[0] == t[0]);
        assert(u[1] == t[1]);
        assert(u.skip(1) =~= t.skip(1).subrange(0, k - 1));
        lemma_scan_digits_take(t.skip(1), d - 1, k - 1);
        assert(scan_digits(u.skip(1)) == d - 1);
        assert(u.skip(d) =~= t.skip(d).subrange(0, e));
        lemma_scan_exponent_take(t.skip(d), e);
    }
}

/// Truncating after the digit run, at or before any non-digit, keeps the
/// digit count: `scan_digits(s.subrange(0, m)) == scan_digits(s)` when the
/// run of digits `scan_digits(s)` fits below `m`.
proof fn lemma_scan_digits_take(s: Seq<u8>, d: int, m: int)
    requires
        scan_digits(s) == d,
        d <= m <= s.len(),
    ensures
        scan_digits(s.subrange(0, m)) == d,
    decreases d,
{
    atom::lemma_scan_digits_bounds(s);
    let u = s.subrange(0, m);
    if d == 0 {
        if u.len() > 0 {
            assert(u[0] == s[0]);
        }
        assert(scan_digits(u) == 0);
    } else {
        assert(u[0] == s[0]);
        assert(u.skip(1) =~= s.skip(1).subrange(0, m - 1));
        assert(scan_digits(s.skip(1)) == d - 1);
        lemma_scan_digits_take(s.skip(1), d - 1, m - 1);
    }
}

/// Truncating exactly after an exponent part keeps what it consumes.
proof fn lemma_scan_exponent_take(s: Seq<u8>, e: int)
    requires
        atom::scan_exponent(s) == e,
    ensures
        atom::scan_exponent(s.subrange(0, e)) == e,
{
    let u = s.subrange(0, e);
    atom::lemma_scan_exponent_bounds(s);
    if e == 0 {
        assert(u.len() == 0);
        assert(atom::scan_exponent(u) == 0);
    } else {
        assert(s.len() > 0 && atom::is_exponent_mark(s[0]));
        let q: int = if s.len() > 1 && atom::is_sign(s[1]) {
            2
        } else {
            1
        };
        assert(q < s.len() && atom::is_digit(s[q]));
        let ed = scan_digits(s.skip(q));
        atom::lemma_scan_digits_bounds(s.skip(q));
        assert(e == q + ed);
        assert(u[0] == s[0]);
        assert(u.len() == e >= q + 1);
        assert(u[q] == s[q]);
        if q == 2 {
            assert(u[1] == s[1]);
        } else {
            if u.len() > 1 {
                assert(u[1] == s[1]);
            }
        }
        assert(u.skip(q) =~= s.skip(q).subrange(0, ed));
        lemma_scan_digits_take(s.skip(q), ed, ed);
    }
}

/// Unfolds `parse_binary` once from the facts about each of its steps.
pub proof fn lemma_parse_binary_steps(
    s: Seq<u8>,
    depth: nat,
    lw: Expr,
    c1: int,
    op2: crate::evaluate::expression::Operator,
    no: int,
    rw: Expr,
    c2: int,
)
    requires
        s.len() > 0,
        s[0] == LEFT_PAREN,
        scan_space(s.skip(1)) == 0,
        parse_operand(s.skip(1), depth) == Some((lw, c1)),
        scan_space(s.skip(1 + c1)) == 1,
        scan_operator(s.skip(1 + c1 + 1)) == Some((op2, no)),
        scan_space(s.skip(1 + c1 + 1 + no)) == 1,
        parse_operand(s.skip(1 + c1 + 1 + no + 1), depth) == Some((rw, c2)),
        scan_space(s.skip(1 + c1 + 1 + no + 1 + c2)) == 0,
        1 + c1 + 1 + no + 1 + c2 < s.len(),
        s[1 + c1 + 1 + no + 1 + c2] == RIGHT_PAREN,
    ensures
        parse_binary(s, depth) == Some(
            (Expr::Bin(op2, Box::new(lw), Box::new(rw)), 1 + c1 + 1 + no + 1 + c2 + 1),
        ),
{
}

/// Intermediate parse result: the shape of one operand, used only while a
/// binary application is being assembled.
#[derive(Debug)]
pub enum Operation {
    Number(Vec<u8>),
    Variable,
    Subexpression(Box<Node>),
}

impl View for Operation {
    type V = Expr;

    open spec fn view(&self) -> Expr {
        match self {
            Operation::Number(d) => Expr::Num(d@),
            Operation::Variable => Expr::Var,
            Operation::Subexpression(b) => node_view(**b),
        }
    }
}

impl Operation {
    /// Expands the operand into its tree node.
    pub fn into_node(self) -> (r: Node)
        ensures
            r@ == self@,
    {
        match self {
            Operation::Number(d) => Node::Number(d),
            Operation::Variable => Node::Variable,
            Operation::Subexpression(b) => *b,
        }
    }
}

/// Parses the number-leaf alternative `"(" number ")"` at `pos`.
pub fn n(s: &Vec<u8>, pos: usize) -> (r: Option<(Node, usize)>)
    requires
        pos <= s@.len(),
    ensures
        match r {
            Some(p) => leaf_number(s@.skip(pos as int)) == Some((p.0@, p.1 - pos as int)) && pos
                < p.1 <= s@.len(),
            None => leaf_number(s@.skip(pos as int)) is None,
        },
{
    broadcast use vstd::seq_lib::lemma_seq_skip_of_skip;

    let ghost w = s@.skip(pos as int);
    proof {
        assert(w.len() > 0 ==> w[0] == s@[pos as int]);
    }
    if pos < s.len() && s[pos] == LEFT_PAREN {
        proof {
            assert(w.skip(1) == s@.skip(pos as int + 1));
        }
        match atom::number(s, pos + 1) {
            Some(end) => {
                proof {
                    assert(end < s@.len() ==> w.skip(1)[end - pos - 1] == s@[end as int]);
                }
                if end < s.len() && s[end] == RIGHT_PAREN {
                    let digits = slice_to_vec(slice_subrange(s.as_slice(), pos + 1, end));
                    proof {
                        assert(digits@ =~= w.skip(1).subrange(0, end - pos - 1));
                    }
                    Some((Node::Number(digits), end + 1))
                } else {
                    None
                }
            },
            None => None,
        }
    } else {
        None
    }
}

/// Parses the variable-leaf alternative `"(" variable ")"` at `pos`.
pub fn v(s: &Vec<u8>, pos: usize) -> (r: Option<(Node, usize)>)
    requires
        pos <= s@.len(),
    ensures
        match r {
            Some(p) => leaf_variable(s@.skip(pos as int)) == Some((p.0@, p.1 - pos as int)) && pos
                < p.1 <= s@.len(),
            None => leaf_variable(s@.skip(pos as int)) is None,
        },
{
    let ghost w = s@.skip(pos as int);
    proof {
        assert(w.len() > 0 ==> w[0] == s@[pos as int]);
        assert(w.len() > 1 ==> w[1] == s@[pos as int + 1]);
        assert(w.len() > 2 ==> w[2] == s@[pos as int + 2]);
    }
    if s.len() - pos > 2 && s[pos] == LEFT_PAREN && s[pos + 1] == LOWER_X && s[pos + 2]
        == RIGHT_PAREN {
        Some((Node::Variable, pos + 3))
    } else {
        None
    }
}

/// Parses one operand at `pos`: a bare numeral, the bare variable, or a
/// nested expression, in that order of preference.
fn operand(s: &Vec<u8>, pos: usize, depth: usize) -> (r: Option<(Operation, usize)>)
    requires
        pos <= s@.len(),
    ensures
        match r {
            Some(p) => parse_operand(s@.skip(pos as int), depth as nat) == Some(
                (p.0@, p.1 - pos as int),
            ) && pos < p.1 <= s@.len(),
            None => parse_operand(s@.skip(pos as int), depth as nat) is None,
        },
    decreases depth, 0int,
{
    let ghost w = s@.skip(pos as int);
    match atom::number(s, pos) {
        Some(end) => {
            let digits = slice_to_vec(slice_subrange(s.as_slice(), pos, end));
            proof {
                assert(digits@ =~= w.subrange(0, end - pos));
            }
            Some((Operation::Number(digits), end))
        },
        None => {
            proof {
                assert(w.len() > 0 ==> w[0] == s@[pos as int]);
            }
            if pos < s.len() && s[pos] == LOWER_X {
                Some((Operation::Variable, pos + 1))
            } else if depth > 0 {
                match operation(s, pos, depth - 1) {
                    Some(p) => Some((Operation::Subexpression(Box::new(p.0)), p.1)),
                    None => None,
                }
            } else {
                None
            }
        },
    }
}

/// Parses the binary alternative at `pos`.
#[verifier::rlimit(60)]
fn binary(s: &Vec<u8>, pos: usize, depth: usize) -> (r: Option<(Node, usize)>)
    requires
        pos <= s@.len(),
    ensures
        match r {
            Some(p) => parse_binary(s@.skip(pos as int), depth as nat) == Some(
                (p.0@, p.1 - pos as int),
            ) && pos < p.1 <= s@.len(),
            None => parse_binary(s@.skip(pos as int), depth as nat) is None,
        },
    decreases depth, 1int,
{
    let ghost w = s@.skip(pos as int);
    proof {
        assert(w.len() > 0 ==> w[0] == s@[pos as int]);
    }
    if !(pos < s.len() && s[pos] == LEFT_PAREN) {
        return None;
    }
    proof {
        vstd::seq_lib::lemma_seq_skip_of_skip(s@, pos as int, 1);
        assert(w.skip(1) == s@.skip(pos as int + 1));
    }
    let p1 = atom::space_end(s, pos + 1);
    proof {
        vstd::seq_lib::lemma_seq_skip_of_skip(s@, pos as int, p1 - pos as int);
        assert(w.skip(p1 - pos as int) == s@.skip(p1 as int));
        assert(1 + scan_space(w.skip(1)) == p1 - pos as int);
    }
    let left = match operand(s, p1, depth) {
        Some(p) => p,
        None => {
            return None;
        },
    };
    let p2 = left.1;
    proof {
        vstd::seq_lib::lemma_seq_skip_of_skip(s@, pos as int, p2 - pos as int);
        assert(w.skip(p2 - pos as int) == s@.skip(p2 as int));
    }
    let p3 = atom::space_end(s, p2);
    proof {
        vstd::seq_lib::lemma_seq_skip_of_skip(s@, pos as int, p3 - pos as int);
        assert(w.skip(p3 - pos as int) == s@.skip(p3 as int));
    }
    let oper = match atom::operator(s, p3) {
        Some(p) => p,
        None => {
            return None;
        },
    };
    let p4 = oper.1;
    proof {
        vstd::seq_lib::lemma_seq_skip_of_skip(s@, pos as int, p4 - pos as int);
        assert(w.skip(p4 - pos as int) == s@.skip(p4 as int));
    }
    let p5 = atom::space_end(s, p4);
    proof {
        vstd::seq_lib::lemma_seq_skip_of_skip(s@, pos as int, p5 - pos as int);
        assert(w.skip(p5 - pos as int) == s@.skip(p5 as int));
    }
    let right = match operand(s, p5, depth) {
        Some(p) => p,
        None => {
            return None;
        },
    };
    let p6 = right.1;
    proof {
        vstd::seq_lib::lemma_seq_skip_of_skip(s@, pos as int, p6 - pos as int);
        assert(w.skip(p6 - pos as int) == s@.skip(p6 as int));
    }
    let p7 = atom::space_end(s, p6);
    proof {
        assert(p7 < s@.len() ==> w[p7 - pos as int] == s@[p7 as int]);
    }
    if p7 < s.len() && s[p7] == RIGHT_PAREN {
        let node = Node::BinaryOp(
            BinaryOperation {
                operator: oper.0,
                left: Box::new(left.0.into_node()),
                right: Box::new(right.0.into_node()),
            },
        );
        proof {
            assert(node@ == Expr::Bin(oper.0, Box::new(left.0@), Box::new(right.0@)));
            assert(parse_binary(w, depth as nat) == Some((node@, p7 + 1 - pos as int)));
        }
        Some((node, p7 + 1))
    } else {
        proof {
            assert(parse_binary(w, depth as nat) is None);
        }
        None
    }
}

/// Parses one whole expression at `pos`: a number leaf, a variable leaf,
/// or a binary application, in that order of preference.  `depth` bounds
/// how deeply operands may nest further subexpressions.
pub fn operation(s: &Vec<u8>, pos: usize, depth: usize) -> (r: Option<(Node, usize)>)
    requires
        pos <= s@.len(),
    ensures
        match r {
            Some(p) => parse_expr(s@.skip(pos as int), depth as nat) == Some(
                (p.0@, p.1 - pos as int),
            ) && pos < p.1 <= s@.len(),
            None => parse_expr(s@.skip(pos as int), depth as nat) is None,
        },
    decreases depth, 2int,
{
    match n(s, pos) {
        Some(p) => Some(p),
        None => match v(s, pos) {
            Some(p) => Some(p),
            None => binary(s, pos, depth),
        },
    }
}

} // verus!
