use vstd::prelude::*;

pub mod atom;
pub mod operation;

use crate::evaluate::expression::atom::{
    scan_number, operator_symbol, LEFT_PAREN, RIGHT_PAREN, SPACE, LOWER_X, PLUS, MINUS, STAR,
    SLASH, PERCENT, CARET, LOWER_L, LOWER_O, LOWER_G,
};
use crate::evaluate::expression::operation::{parse_expr, leaf_number, leaf_variable};
use vstd::slice::{slice_subrange, slice_to_vec};
use vstd::string::{StrSliceExecFns, StringSliceAdditionalSpecFns};

verus! {

/// Binary operator of a formula; every application takes exactly two
/// operands.
#[derive(Clone, Copy, PartialEq, Eq, Structural, Debug)]
pub enum Operator {
    Add,
    Sub,
    Mul,
    Div,
    Mod,
    Pow,
    Log,
}

/// Mathematical model of an expression tree.  A number literal is kept as
/// the byte string of its numeral.
pub enum Expr {
    Num(Seq<u8>),
    Var,
    Bin(Operator, Box<Expr>, Box<Expr>),
}

/// A node of the expression tree: a number literal, the free variable `x`,
/// or a binary application.
#[derive(Debug, PartialEq, Eq)]
pub enum Node {
    Number(Vec<u8>),
    Variable,
    BinaryOp(BinaryOperation),
}

/// A binary application: an operator and its two exclusively owned operand
/// subtrees.
#[derive(Debug, PartialEq, Eq)]
pub struct BinaryOperation {
    pub operator: Operator,
    pub left: Box<Node>,
    pub right: Box<Node>,
}

/// The model a tree node stands for.
pub open spec fn node_view(n: Node) -> Expr
    decreases n,
{
    match n {
        Node::Number(d) => Expr::Num(d@),
        Node::Variable => Expr::Var,
        Node::BinaryOp(b) => Expr::Bin(
            b.operator,
            Box::new(node_view(*b.left)),
            Box::new(node_view(*b.right)),
        ),
    }
}

impl View for Node {
    type V = Expr;

    open spec fn view(&self) -> Expr {
        node_view(*self)
    }
}

/// Well-formed trees hold only valid numerals: the numeral scanner accepts
/// the whole stored byte string.
pub open spec fn wf_expr(e: Expr) -> bool
    decreases e,
{
    match e {
        Expr::Num(d) => scan_number(d) == Some(d.len() as int),
        Expr::Var => true,
        Expr::Bin(_, l, r) => wf_expr(*l) && wf_expr(*r),
    }
}

/// Nesting depth a parser needs for `e` in operand position: each
/// parenthesized subexpression costs one level.
pub open spec fn operand_nesting(e: Expr) -> nat
    decreases e,
{
    match e {
        Expr::Bin(_, l, r) => 1 + if operand_nesting(*l) >= operand_nesting(*r) {
            operand_nesting(*l)
        } else {
            operand_nesting(*r)
        },
        _ => 0,
    }
}

/// Nesting depth a parser needs for `e` as a whole expression.
pub open spec fn expr_nesting(e: Expr) -> nat {
    match e {
        Expr::Bin(_, l, r) => if operand_nesting(*l) >= operand_nesting(*r) {
            operand_nesting(*l)
        } else {
            operand_nesting(*r)
        },
        _ => 0,
    }
}

/// Canonical text of `e` in operand position: numerals verbatim, the
/// variable as `x`, a binary application as `(left OP right)` with single
/// spaces.
pub open spec fn render_operand(e: Expr) -> Seq<u8>
    decreases e,
{
    match e {
        Expr::Num(d) => d,
        Expr::Var => seq![LOWER_X],
        Expr::Bin(op, l, r) => seq![LEFT_PAREN] + render_operand(*l) + seq![SPACE]
            + operator_symbol(op) + seq![SPACE] + render_operand(*r) + seq![RIGHT_PAREN],
    }
}

/// Canonical text of `e` as a whole expression: a leaf gains the enclosing
/// parentheses the grammar demands of every expression.
pub open spec fn render_expr(e: Expr) -> Seq<u8> {
    match e {
        Expr::Bin(_, _, _) => render_operand(e),
        _ => seq![LEFT_PAREN] + render_operand(e) + seq![RIGHT_PAREN],
    }
}


/// Maximum nesting depth of parenthesized subexpressions the parser
/// accepts; more deeply nested input is rejected with a syntax error, which
/// keeps recursion depth bounded on pathological input.
pub const MAX_NESTING: usize = 64;

/// Parsing failed: no grammar alternative matched, or trailing input
/// remained after a complete top-level match.  `fragment` is the unconsumed
/// remainder of the input, starting at byte `offset`.
#[derive(Debug)]
pub struct SyntaxError {
    pub offset: usize,
    pub fragment: Vec<u8>,
}

/// What parsing a whole text yields: the tree of the one expression that
/// spans exactly the whole input, if there is one.
pub open spec fn parse_text(s: Seq<u8>) -> Option<Expr> {
    match parse_expr(s, MAX_NESTING as nat) {
        Some(p) => if p.1 == s.len() {
            Some(p.0)
        } else {
            None
        },
        None => None,
    }
}

/// The characters of an ASCII byte string.
pub open spec fn ascii_chars_of(b: Seq<u8>) -> Seq<char> {
    Seq::new(b.len(), |i: int| b[i] as char)
}

/// Evaluate a math expression: an immutable tree built by one successful
/// top-level parse.
#[derive(Debug, PartialEq, Eq)]
pub struct Evaluate {
    pub node: Node,
}

impl View for Evaluate {
    type V = Expr;

    open spec fn view(&self) -> Expr {
        node_view(self.node)
    }
}

impl Evaluate {
    /// Parses `text` into an expression tree.  The whole input must be one
    /// expression of the grammar; otherwise the syntax error reports the
    /// unconsumed remainder (after a partial match, from its end; otherwise
    /// the whole input).
    pub fn try_from_str(text: &str) -> (r: Result<Evaluate, SyntaxError>)
        ensures
            match r {
                Ok(ev) => parse_text(text.spec_bytes()) == Some(ev@) && wf_expr(ev@)
                    && expr_nesting(ev@) <= MAX_NESTING,
                Err(e) => {
                    let s = text.spec_bytes();
                    &&& parse_text(s) is None
                    &&& e.offset <= s.len()
                    &&& e.fragment@ == s.skip(e.offset as int)
                    &&& match parse_expr(s, MAX_NESTING as nat) {
                        Some(p) => e.offset == p.1,
                        None => e.offset == 0,
                    }
                },
            },
    {
        let bytes = text.as_bytes_vec();
        proof {
            assert(bytes@.skip(0) == bytes@);
        }
        match crate::evaluate::expression::operation::operation(&bytes, 0, MAX_NESTING) {
            Some(p) => {
                if p.1 == bytes.len() {
                    proof {
                        crate::evaluate::expression::operation::lemma_parse_expr_sound(
                            bytes@,
                            MAX_NESTING as nat,
                        );
                    }
                    Ok(Evaluate { node: p.0 })
                } else {
                    let fragment = slice_to_vec(slice_subrange(bytes.as_slice(), p.1, bytes.len()));
                    proof {
                        assert(fragment@ =~= bytes@.skip(p.1 as int));
                    }
                    Err(SyntaxError { offset: p.1, fragment })
                }
            },
            None => Err(SyntaxError { offset: 0, fragment: bytes }),
        }
    }

    /// Renders the tree back to canonical parenthesized text: binary
    /// applications as `(left OP right)` with single spaces, numerals
    /// verbatim, the variable as `x`, a leaf at top level inside the
    /// parentheses the grammar demands.
    pub fn to_text(&self) -> (r: String)
        requires
            wf_expr(self@),
        ensures
            r@ == ascii_chars_of(render_expr(self@)),
    {
        let mut out: Vec<u8> = Vec::new();
        match &self.node {
            Node::BinaryOp(_) => {
                render_node(&self.node, &mut out);
            },
            _ => {
                out.push(LEFT_PAREN);
                render_node(&self.node, &mut out);
                out.push(RIGHT_PAREN);
                proof {
                    assert(out@ =~= seq![LEFT_PAREN] + render_operand(self@) + seq![RIGHT_PAREN]);
                }
            },
        }
        proof {
            lemma_render_operand_ascii(self@);
            assert forall|i: int| 0 <= i < out@.len() implies out@[i] < 128 by {
                if !(self@ is Bin) {
                    if 0 < i < out@.len() - 1 {
                        assert(out@[i] == render_operand(self@)[i - 1]);
                    }
                }
            }
        }
        ascii_to_string(out)
    }
}

/// Renders `n` in operand position onto the end of `out`.
fn render_node(n: &Node, out: &mut Vec<u8>)
    ensures
        final(out)@ == old(out)@ + render_operand(n@),
    decreases n,
{
    match n {
        Node::Number(d) => {
            let mut j: usize = 0;
            while j < d.len()
                invariant
                    j <= d@.len(),
                    out@ == old(out)@ + d@.subrange(0, j as int),
                decreases d@.len() - j,
            {
                out.push(d[j]);
                j = j + 1;
                proof {
                    assert(out@ =~= old(out)@ + d@.subrange(0, j as int));
                }
            }
            proof {
                assert(d@.subrange(0, d@.len() as int) =~= d@);
            }
        },
        Node::Variable => {
            out.push(LOWER_X);
            proof {
                assert(out@ =~= old(out)@ + render_operand(n@));
            }
        },
        Node::BinaryOp(b) => {
            out.push(LEFT_PAREN);
            render_node(&b.left, out);
            out.push(SPACE);
            push_operator(b.operator, out);
            out.push(SPACE);
            render_node(&b.right, out);
            out.push(RIGHT_PAREN);
            proof {
                assert(out@ =~= old(out)@ + render_operand(n@));
            }
        },
    }
}

/// Appends the canonical symbol of `op` to `out`.
fn push_operator(op: Operator, out: &mut Vec<u8>)
    ensures
        final(out)@ == old(out)@ + operator_symbol(op),
{
    match op {
        Operator::Add => {
            out.push(PLUS);
            proof {
                assert(out@ =~= old(out)@ + operator_symbol(op));
            }
        },
        Operator::Sub => {
            out.push(MINUS);
            proof {
                assert(out@ =~= old(out)@ + operator_symbol(op));
            }
        },
        Operator::Mul => {
            out.push(STAR);
            proof {
                assert(out@ =~= old(out)@ + operator_symbol(op));
            }
        },
        Operator::Div => {
            out.push(SLASH);
            proof {
                assert(out@ =~= old(out)@ + operator_symbol(op));
            }
        },
        Operator::Mod => {
            out.push(PERCENT);
            proof {
                assert(out@ =~= old(out)@ + operator_symbol(op));
            }
        },
        Operator::Pow => {
            out.push(CARET);
            proof {
                assert(out@ =~= old(out)@ + operator_symbol(op));
            }
        },
        Operator::Log => {
            out.push(LOWER_L);
            out.push(LOWER_O);
            out.push(LOWER_G);
            proof {
                assert(out@ =~= old(out)@ + operator_symbol(op));
            }
        },
    }
}

/// Every byte of a valid numeral is ASCII.
pub proof fn lemma_scan_number_ascii(d: Seq<u8>)
    requires
        scan_number(d) == Some(d.len() as int),
    ensures
        forall|i: int| 0 <= i < d.len() ==> d[i] < 128,
{
    atom::lemma_scan_number_bounds(d);
    let p: int = if d.len() > 0 && atom::is_sign(d[0]) {
        1
    } else {
        0
    };
    let t = d.skip(p);
    if t.len() > 0 && atom::is_digit(t[0]) {
        let dd = atom::scan_digits(t);
        let f: int = if dd < t.len() && t[dd] == atom::DOT {
            1 + atom::scan_digits(t.skip(dd + 1))
        } else {
            0
        };
        let e = atom::scan_exponent(t.skip(dd + f));
        atom::lemma_scan_digits_bounds(t);
        if dd < t.len() && t[dd] == atom::DOT {
            atom::lemma_scan_digits_bounds(t.skip(dd + 1));
        }
        lemma_scan_exponent_ascii(t.skip(dd + f));
        assert forall|i: int| 0 <= i < d.len() implies d[i] < 128 by {
            if i >= p {
                let j = i - p;
                assert(t[j] == d[i]);
                if j < dd {
                } else if f > 0 && j == dd {
                } else if f > 0 && j < dd + f {
                    assert(t.skip(dd + 1)[j - dd - 1] == t[j]);
                } else {
                    assert(t.skip(dd + f)[j - dd - f] == t[j]);
                }
            }
        }
    } else if t.len() > 1 && t[0] == atom::DOT && atom::is_digit(t[1]) {
        let dd = 1 + atom::scan_digits(t.skip(1));
        let e = atom::scan_exponent(t.skip(dd));
        atom::lemma_scan_digits_bounds(t.skip(1));
        lemma_scan_exponent_ascii(t.skip(dd));
        assert forall|i: int| 0 <= i < d.len() implies d[i] < 128 by {
            if i >= p {
                let j = i - p;
                assert(t[j] == d[i]);
                if j == 0 {
                } else if j < dd {
                    assert(t.skip(1)[j - 1] == t[j]);
                } else {
                    assert(t.skip(dd)[j - dd] == t[j]);
                }
            }
        }
    }
}

/// Every byte an exponent part consumes is ASCII.
proof fn lemma_scan_exponent_ascii(s: Seq<u8>)
    ensures
        forall|i: int| 0 <= i < atom::scan_exponent(s) ==> s[i] < 128,
{
    if s.len() > 0 && atom::is_exponent_mark(s[0]) {
        let q: int = if s.len() > 1 && atom::is_sign(s[1]) {
            2
        } else {
            1
        };
        if q < s.len() && atom::is_digit(s[q]) {
            atom::lemma_scan_digits_bounds(s.skip(q));
            assert forall|i: int| 0 <= i < atom::scan_exponent(s) implies s[i] < 128 by {
                if i >= q {
                    assert(s.skip(q)[i - q] == s[i]);
                }
            }
        }
    }
}

/// Every byte of the rendering of a well-formed tree is ASCII.
pub proof fn lemma_render_operand_ascii(e: Expr)
    requires
        wf_expr(e),
    ensures
        forall|i: int| 0 <= i < render_operand(e).len() ==> render_operand(e)[i] < 128,
    decreases e,
{
    match e {
        Expr::Num(d) => {
            lemma_scan_number_ascii(d);
        },
        Expr::Var => {},
        Expr::Bin(op, l, r) => {
            lemma_render_operand_ascii(*l);
            lemma_render_operand_ascii(*r);
            let a = seq![LEFT_PAREN] + render_operand(*l) + seq![SPACE] + operator_symbol(op)
                + seq![SPACE] + render_operand(*r) + seq![RIGHT_PAREN];
            assert forall|i: int| 0 <= i < a.len() implies a[i] < 128 by {
                lemma_concat7_index(
                    seq![LEFT_PAREN],
                    render_operand(*l),
                    seq![SPACE],
                    operator_symbol(op),
                    seq![SPACE],
                    render_operand(*r),
                    seq![RIGHT_PAREN],
                    i,
                );
            }
        },
    }
}

/// Which part of a seven-piece concatenation an index falls in.
proof fn lemma_concat7_index(
    a: Seq<u8>,
    b: Seq<u8>,
    c: Seq<u8>,
    d: Seq<u8>,
    e: Seq<u8>,
    f: Seq<u8>,
    g: Seq<u8>,
    i: int,
)
    requires
        0 <= i < (a + b + c + d + e + f + g).len(),
    ensures
        ({
            let s = a + b + c + d + e + f + g;
            let lb = a.len() + b.len();
            let lc = lb + c.len();
            let ld = lc + d.len();
            let le = ld + e.len();
            let lf = le + f.len();
            if i < a.len() {
                s[i] == a[i]
            } else if i < lb {
                s[i] == b[i - a.len()]
            } else if i < lc {
                s[i] == c[i - lb]
            } else if i < ld {
                s[i] == d[i - lc]
            } else if i < le {
                s[i] == e[i - ld]
            } else if i < lf {
                s[i] == f[i - le]
            } else {
                s[i] == g[i - lf]
            }
        }),
{
}

/// Relies on `String::from_utf8`: ASCII bytes are valid UTF-8 and decode to
/// one character per byte, so the call cannot fail on them.
#[verifier::external_body]
fn ascii_to_string(v: Vec<u8>) -> (r: String)
    requires
        forall|i: int| 0 <= i < v@.len() ==> v@[i] < 128,
    ensures
        r@ == ascii_chars_of(v@),
{
    String::from_utf8(v).unwrap_or_default()
}


/// First byte of a rendered operand: never whitespace or a closing
/// parenthesis, and it identifies the operand's shape.
pub proof fn lemma_render_first(e: Expr)
    requires
        wf_expr(e),
    ensures
        render_operand(e).len() > 0,
        !atom::is_space(render_operand(e)[0]),
        render_operand(e)[0] != RIGHT_PAREN,
        e is Bin ==> render_operand(e)[0] == LEFT_PAREN,
        e is Var ==> render_operand(e)[0] == LOWER_X,
        e is Num ==> (atom::is_sign(render_operand(e)[0]) || atom::is_digit(
            render_operand(e)[0],
        ) || render_operand(e)[0] == atom::DOT),
{
    match e {
        Expr::Num(d) => {
            atom::lemma_scan_number_bounds(d);
            if !(atom::is_sign(d[0])) {
                assert(d.skip(0) =~= d);
                assert(atom::is_digit(d[0]) || d[0] == atom::DOT) by {
                    if !(d.len() > 0 && atom::is_digit(d[0])) && !(d.len() > 1 && d[0]
                        == atom::DOT && atom::is_digit(d[1])) {
                        assert(scan_number(d) is None);
                    }
                }
            }
        },
        Expr::Var => {},
        Expr::Bin(_, _, _) => {},
    }
}

/// No numeral starts at a byte that is not a sign, a digit, or a dot.
proof fn lemma_scan_number_none_head(s: Seq<u8>)
    requires
        s.len() > 0,
        !atom::is_sign(s[0]),
        !atom::is_digit(s[0]),
        s[0] != atom::DOT,
    ensures
        scan_number(s) is None,
{
    assert(s.skip(0) =~= s);
}

/// Rendered text of a well-formed operand, followed by a space or a
/// closing parenthesis, parses back to exactly that operand.
pub proof fn lemma_parse_operand_render(e: Expr, rest: Seq<u8>, depth: nat)
    requires
        wf_expr(e),
        operand_nesting(e) <= depth,
        rest.len() > 0,
        rest[0] == SPACE || rest[0] == RIGHT_PAREN,
    ensures
        crate::evaluate::expression::operation::parse_operand(render_operand(e) + rest, depth)
            == Some((e, render_operand(e).len() as int)),
    decreases e, 2int,
{
    let s = render_operand(e) + rest;
    match e {
        Expr::Num(d) => {
            atom::lemma_scan_number_append(d, rest);
            assert(scan_number(s) == Some(d.len() as int));
            assert(s.subrange(0, d.len() as int) =~= d);
        },
        Expr::Var => {
            assert(s[0] == LOWER_X);
            lemma_scan_number_none_head(s);
        },
        Expr::Bin(_, _, _) => {
            assert(s[0] == LEFT_PAREN);
            lemma_scan_number_none_head(s);
            assert(depth > 0);
            lemma_parse_expr_render(e, rest, (depth - 1) as nat);
        },
    }
}

/// Neither leaf alternative matches the rendering of a binary
/// application: after the left operand comes a space, never the closing
/// parenthesis a leaf would need.
#[verifier::spinoff_prover]
proof fn lemma_binary_render_no_leaf(op: Operator, l: Box<Expr>, r: Box<Expr>, rest: Seq<u8>)
    requires
        wf_expr(Expr::Bin(op, l, r)),
    ensures
        leaf_number(render_operand(Expr::Bin(op, l, r)) + rest) is None,
        leaf_variable(render_operand(Expr::Bin(op, l, r)) + rest) is None,
{
    let e = Expr::Bin(op, l, r);
    assert(wf_expr(*l));
    let rl = render_operand(*l);
    let tail1 = seq![SPACE] + (operator_symbol(op) + (seq![SPACE] + (render_operand(*r) + (seq![
        RIGHT_PAREN,
    ] + rest))));
    let mid = rl + tail1;
    let s = render_operand(e) + rest;
    assert(s =~= seq![LEFT_PAREN] + mid);
    assert(s[0] == LEFT_PAREN);
    lemma_render_first(*l);
    let t = s.skip(1);
    assert(t =~= mid);
    assert(t[0] == rl[0]);
    match *l {
        Expr::Num(dl) => {
            assert(scan_number(dl) == Some(dl.len() as int));
            assert(t =~= dl + tail1);
            atom::lemma_scan_number_append(dl, tail1);
            assert(scan_number(t) == Some(dl.len() as int));
            assert(t[dl.len() as int] == tail1[0]);
        },
        Expr::Var => {
            lemma_scan_number_none_head(t);
        },
        Expr::Bin(_, _, _) => {
            lemma_scan_number_none_head(t);
        },
    }
    assert(leaf_variable(s) is None) by {
        assert(s.len() >= 3);
        assert(s[1] == mid[0]);
        assert(mid[0] == rl[0]);
        match *l {
            Expr::Num(_) => {},
            Expr::Var => {
                assert(s[2] == mid[1]);
                assert(mid[1] == tail1[0]);
            },
            Expr::Bin(_, _, _) => {},
        }
    }
}

/// Rendered text of a well-formed binary application, with anything behind
/// it, parses back to exactly that application.
#[verifier::spinoff_prover]
#[verifier::rlimit(100)]
proof fn lemma_parse_binary_render(e: Expr, rest: Seq<u8>, depth: nat)
    requires
        wf_expr(e),
        expr_nesting(e) <= depth,
        e is Bin,
    ensures
        crate::evaluate::expression::operation::parse_expr(render_expr(e) + rest, depth) == Some(
            (e, render_expr(e).len() as int),
        ),
    decreases e, 0int,
{
    let s = render_expr(e) + rest;
    match e {
        Expr::Bin(op, l, r) => {
            assert(wf_expr(*l));
            assert(wf_expr(*r));
            let rl = render_operand(*l);
            let rr = render_operand(*r);
            let sym = operator_symbol(op);
            let tail5 = seq![RIGHT_PAREN] + rest;
            let tail4 = rr + tail5;
            let tail3 = seq![SPACE] + tail4;
            let tail2 = sym + tail3;
            let tail1 = seq![SPACE] + tail2;
            let mid = rl + tail1;
            assert(s =~= seq![LEFT_PAREN] + mid);
            assert(s[0] == LEFT_PAREN);
            lemma_render_first(*l);
            lemma_render_first(*r);
            atom::lemma_operator_symbol_head(op);
            assert(tail1 =~= seq![SPACE] + (sym + (seq![SPACE] + (rr + (seq![RIGHT_PAREN]
                + rest)))));
            lemma_binary_render_no_leaf(op, l, r, rest);
            let t = s.skip(1);
            assert(t =~= mid);
            assert(t[0] == rl[0]);
            assert(atom::scan_space(t) == 0);
            lemma_parse_operand_render(*l, tail1, depth);
            let p2: int = 1 + rl.len() as int;
            assert(s.skip(p2) =~= tail1);
            assert(atom::scan_space(tail1) == 1) by {
                assert(tail1[0] == SPACE);
                assert(tail2[0] == sym[0]);
                assert(atom::scan_space(tail2) == 0);
                assert(tail1.skip(1) =~= tail2);
            }
            let p3: int = p2 + 1;
            assert(s.skip(p3) =~= tail2);
            atom::lemma_scan_operator_symbol(op, tail3);
            let p4: int = p3 + sym.len() as int;
            assert(s.skip(p4) =~= tail3);
            assert(atom::scan_space(tail3) == 1) by {
                assert(tail3[0] == SPACE);
                assert(tail4[0] == rr[0]);
                assert(atom::scan_space(tail4) == 0);
                assert(tail3.skip(1) =~= tail4);
            }
            let p5: int = p4 + 1;
            assert(s.skip(p5) =~= tail4);
            lemma_parse_operand_render(*r, tail5, depth);
            let p6: int = p5 + rr.len() as int;
            assert(s.skip(p6) =~= tail5);
            assert(atom::scan_space(tail5) == 0) by {
                assert(tail5[0] == RIGHT_PAREN);
            }
            assert(s.skip(p6)[0] == s[p6]);
            assert(s[p6] == RIGHT_PAREN);
            crate::evaluate::expression::operation::lemma_parse_binary_steps(
                s,
                depth,
                *l,
                rl.len() as int,
                op,
                sym.len() as int,
                *r,
                rr.len() as int,
            );
            assert(Box::new(*l) == l);
            assert(Box::new(*r) == r);
            assert(render_expr(e).len() == p6 + 1);
        },
        _ => {},
    }
}

/// Rendered text of a well-formed expression, with anything behind it,
/// parses back to exactly that expression.
#[verifier::spinoff_prover]
pub proof fn lemma_parse_expr_render(e: Expr, rest: Seq<u8>, depth: nat)
    requires
        wf_expr(e),
        expr_nesting(e) <= depth,
    ensures
        crate::evaluate::expression::operation::parse_expr(render_expr(e) + rest, depth) == Some(
            (e, render_expr(e).len() as int),
        ),
    decreases e, 1int,
{
    let s = render_expr(e) + rest;
    match e {
        Expr::Num(d) => {
            let tailr = seq![RIGHT_PAREN] + rest;
            assert(s =~= seq![LEFT_PAREN] + (d + tailr));
            assert(s[0] == LEFT_PAREN);
            let t = s.skip(1);
            assert(t =~= d + tailr);
            atom::lemma_scan_number_append(d, tailr);
            assert(scan_number(t) == Some(d.len() as int));
            assert(t[d.len() as int] == tailr[0]);
            assert(t.subrange(0, d.len() as int) =~= d);
            assert(leaf_number(s) == Some((Expr::Num(d), 2 + d.len() as int)));
        },
        Expr::Var => {
            assert(s[0] == LEFT_PAREN);
            assert(s[1] == LOWER_X);
            assert(s[2] == RIGHT_PAREN);
            let t = s.skip(1);
            assert(t[0] == s[1]);
            lemma_scan_number_none_head(t);
            assert(leaf_number(s) is None);
            assert(leaf_variable(s) == Some((Expr::Var, 3int)));
        },
        Expr::Bin(_, _, _) => {
            lemma_parse_binary_render(e, rest, depth);
        },
    }
}

/// Every byte of the rendering of a well-formed whole expression is ASCII.
pub proof fn lemma_render_expr_ascii(e: Expr)
    requires
        wf_expr(e),
    ensures
        forall|i: int| 0 <= i < render_expr(e).len() ==> render_expr(e)[i] < 128,
{
    lemma_render_operand_ascii(e);
    match e {
        Expr::Bin(_, _, _) => {},
        _ => {
            let s = seq![LEFT_PAREN] + render_operand(e) + seq![RIGHT_PAREN];
            assert forall|i: int| 0 <= i < s.len() implies s[i] < 128 by {
                if 0 < i < s.len() - 1 {
                    assert(s[i] == render_operand(e)[i - 1]);
                }
            }
        },
    }
}

/// Text whose characters are those of ASCII bytes has exactly those bytes:
/// what `to_text` returns can be handed back to the parser.
pub proof fn lemma_ascii_chars_bytes(text: &str, b: Seq<u8>)
    requires
        forall|i: int| 0 <= i < b.len() ==> b[i] < 128,
        text@ == ascii_chars_of(b),
    ensures
        text.spec_bytes() =~= b,
{
    broadcast use vstd::string::is_ascii_spec_bytes;

    assert(vstd::string::is_ascii(text)) by {
        assert forall|i: int|
            0 <= i < text@.len() implies '\0' <= #[trigger] text@[i] <= '\u{7f}' by {
            assert(text@[i] == b[i] as char);
        }
    }
    assert forall|i: int| 0 <= i < b.len() implies text.spec_bytes()[i] == b[i] by {
        assert(text@[i] == b[i] as char);
    }
}

/// Round trip at the API level: what `to_text` renders for a tree within
/// the nesting cap, `try_from_str` parses back to the identical tree.
pub proof fn lemma_to_text_reparses(e: Expr, rendered: &str)
    requires
        wf_expr(e),
        expr_nesting(e) <= MAX_NESTING,
        rendered@ == ascii_chars_of(render_expr(e)),
    ensures
        parse_text(rendered.spec_bytes()) == Some(e),
{
    lemma_render_expr_ascii(e);
    lemma_ascii_chars_bytes(rendered, render_expr(e));
    lemma_text_round_trip(e);
}

/// Round trip, one direction: the canonical text of any well-formed tree
/// within the nesting cap parses back to the very same tree.
pub proof fn lemma_text_round_trip(e: Expr)
    requires
        wf_expr(e),
        expr_nesting(e) <= MAX_NESTING,
    ensures
        parse_text(render_expr(e)) == Some(e),
{
    lemma_parse_expr_render(e, Seq::<u8>::empty(), MAX_NESTING as nat);
    assert(render_expr(e) + Seq::<u8>::empty() =~= render_expr(e));
}

/// Round trip: a tree obtained by parsing some text renders to canonical
/// text that parses back to the identical tree — so the re-parsed
/// expression evaluates exactly as the original on every input.
pub proof fn lemma_parse_render_round_trip(s: Seq<u8>, e: Expr)
    requires
        parse_text(s) == Some(e),
    ensures
        parse_text(render_expr(e)) == Some(e),
{
    crate::evaluate::expression::operation::lemma_parse_expr_sound(s, MAX_NESTING as nat);
    lemma_text_round_trip(e);
}


} // verus!
