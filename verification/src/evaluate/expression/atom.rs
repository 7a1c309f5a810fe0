use vstd::prelude::*;

use crate::evaluate::expression::Operator;

verus! {

// The bytes of the formula alphabet, by ASCII code.
pub const LEFT_PAREN: u8 = 40;

pub const RIGHT_PAREN: u8 = 41;

pub const SPACE: u8 = 32;

pub const TAB: u8 = 9;

pub const PLUS: u8 = 43;

pub const MINUS: u8 = 45;

pub const STAR: u8 = 42;

pub const SLASH: u8 = 47;

pub const PERCENT: u8 = 37;

pub const CARET: u8 = 94;

pub const DOT: u8 = 46;

pub const DIGIT_ZERO: u8 = 48;

pub const DIGIT_NINE: u8 = 57;

pub const UPPER_E: u8 = 69;

pub const LOWER_E: u8 = 101;

pub const LOWER_G: u8 = 103;

pub const LOWER_L: u8 = 108;

pub const LOWER_O: u8 = 111;

pub const LOWER_X: u8 = 120;

pub open spec fn is_digit(b: u8) -> bool {
    DIGIT_ZERO <= b && b <= DIGIT_NINE
}

/// Insignificant whitespace at the join points of a binary application.
pub open spec fn is_space(b: u8) -> bool {
    b == SPACE || b == TAB
}

pub open spec fn is_sign(b: u8) -> bool {
    b == PLUS || b == MINUS
}

pub open spec fn is_exponent_mark(b: u8) -> bool {
    b == LOWER_E || b == UPPER_E
}

/// How many digits stand at the front of `s`.
pub open spec fn scan_digits(s: Seq<u8>) -> int
    decreases s.len(),
{
    if s.len() > 0 && is_digit(s[0]) {
        1 + scan_digits(s.skip(1))
    } else {
        0
    }
}

/// How many whitespace bytes stand at the front of `s`.
pub open spec fn scan_space(s: Seq<u8>) -> int
    decreases s.len(),
{
    if s.len() > 0 && is_space(s[0]) {
        1 + scan_space(s.skip(1))
    } else {
        0
    }
}

/// How many bytes an optional exponent part (`e`/`E`, optional sign, one or
/// more digits) occupies at the front of `s`; zero when none stands there.
pub open spec fn scan_exponent(s: Seq<u8>) -> int {
    if s.len() > 0 && is_exponent_mark(s[0]) {
        let q: int = if s.len() > 1 && is_sign(s[1]) {
            2
        } else {
            1
        };
        if q < s.len() && is_digit(s[q]) {
            q + scan_digits(s.skip(q))
        } else {
            0
        }
    } else {
        0
    }
}

/// The numeral at the front of `s`: an optional sign, then either one or
/// more digits with an optional fractional part, or a leading dot with one
/// or more digits, then an optional exponent.  Returns how many bytes the
/// numeral occupies, or `None` when no numeral stands at the front.
pub open spec fn scan_number(s: Seq<u8>) -> Option<int> {
    let p: int = if s.len() > 0 && is_sign(s[0]) {
        1
    } else {
        0
    };
    let t = s.skip(p);
    if t.len() > 0 && is_digit(t[0]) {
        let d = scan_digits(t);
        let f: int = if d < t.len() && t[d] == DOT {
            1 + scan_digits(t.skip(d + 1))
        } else {
            0
        };
        Some(p + d + f + scan_exponent(t.skip(d + f)))
    } else if t.len() > 1 && t[0] == DOT && is_digit(t[1]) {
        let d = 1 + scan_digits(t.skip(1));
        Some(p + d + scan_exponent(t.skip(d)))
    } else {
        None
    }
}

/// The canonical symbol of each operator.
pub open spec fn operator_symbol(op: Operator) -> Seq<u8> {
    match op {
        Operator::Add => seq![PLUS],
        Operator::Sub => seq![MINUS],
        Operator::Mul => seq![STAR],
        Operator::Div => seq![SLASH],
        Operator::Mod => seq![PERCENT],
        Operator::Pow => seq![CARET],
        Operator::Log => seq![LOWER_L, LOWER_O, LOWER_G],
    }
}

/// The operator symbol at the front of `s`, with how many bytes it
/// occupies.  The single-byte symbols and the word `log` begin with
/// pairwise distinct bytes, so first-match resolution is unambiguous.
pub open spec fn scan_operator(s: Seq<u8>) -> Option<(Operator, int)> {
    if s.len() > 0 {
        if s[0] == PLUS {
            Some((Operator::Add, 1int))
        } else if s[0] == MINUS {
            Some((Operator::Sub, 1int))
        } else if s[0] == STAR {
            Some((Operator::Mul, 1int))
        } else if s[0] == SLASH {
            Some((Operator::Div, 1int))
        } else if s[0] == PERCENT {
            Some((Operator::Mod, 1int))
        } else if s[0] == CARET {
            Some((Operator::Pow, 1int))
        } else if s.len() >= 3 && s[0] == LOWER_L && s[1] == LOWER_O && s[2] == LOWER_G {
            Some((Operator::Log, 3int))
        } else {
            None
        }
    } else {
        None
    }
}

pub proof fn lemma_scan_digits_bounds(s: Seq<u8>)
    ensures
        0 <= scan_digits(s) <= s.len(),
        forall|i: int| 0 <= i < scan_digits(s) ==> is_digit(s[i]),
        scan_digits(s) < s.len() ==> !is_digit(s[scan_digits(s)]),
    decreases s.len(),
{
    if s.len() > 0 && is_digit(s[0]) {
        lemma_scan_digits_bounds(s.skip(1));
        assert forall|i: int| 0 <= i < scan_digits(s) implies is_digit(s[i]) by {
            if i > 0 {
                assert(s.skip(1)[i - 1] == s[i]);
            }
        }
    }
}

pub proof fn lemma_scan_space_bounds(s: Seq<u8>)
    ensures
        0 <= scan_space(s) <= s.len(),
        forall|i: int| 0 <= i < scan_space(s) ==> is_space(s[i]),
        scan_space(s) < s.len() ==> !is_space(s[scan_space(s)]),
    decreases s.len(),
{
    if s.len() > 0 && is_space(s[0]) {
        lemma_scan_space_bounds(s.skip(1));
        assert forall|i: int| 0 <= i < scan_space(s) implies is_space(s[i]) by {
            if i > 0 {
                assert(s.skip(1)[i - 1] == s[i]);
            }
        }
    }
}

pub proof fn lemma_scan_exponent_bounds(s: Seq<u8>)
    ensures
        0 <= scan_exponent(s) <= s.len(),
{
    if s.len() > 0 && is_exponent_mark(s[0]) {
        let q: int = if s.len() > 1 && is_sign(s[1]) {
            2
        } else {
            1
        };
        if q < s.len() && is_digit(s[q]) {
            lemma_scan_digits_bounds(s.skip(q));
        }
    }
}

pub proof fn lemma_scan_number_bounds(s: Seq<u8>)
    ensures
        scan_number(s) matches Some(k) ==> 0 < k <= s.len(),
{
    let p: int = if s.len() > 0 && is_sign(s[0]) {
        1
    } else {
        0
    };
    let t = s.skip(p);
    lemma_scan_digits_bounds(t);
    if t.len() > 0 && is_digit(t[0]) {
        let d = scan_digits(t);
        let f: int = if d < t.len() && t[d] == DOT {
            1 + scan_digits(t.skip(d + 1))
        } else {
            0
        };
        if d < t.len() && t[d] == DOT {
            lemma_scan_digits_bounds(t.skip(d + 1));
        }
        lemma_scan_exponent_bounds(t.skip(d + f));
    } else if t.len() > 1 && t[0] == DOT && is_digit(t[1]) {
        lemma_scan_digits_bounds(t.skip(1));
        let d = 1 + scan_digits(t.skip(1));
        lemma_scan_exponent_bounds(t.skip(d));
    }
}

/// Executable test for a digit byte.
pub fn digit(b: u8) -> (r: bool)
    ensures
        r == is_digit(b),
{
    DIGIT_ZERO <= b && b <= DIGIT_NINE
}

/// End of the run of digits that starts at `pos`.
pub fn digits_end(s: &Vec<u8>, pos: usize) -> (r: usize)
    requires
        pos <= s@.len(),
    ensures
        r - pos == scan_digits(s@.skip(pos as int)),
        pos <= r <= s@.len(),
{
    broadcast use vstd::seq_lib::lemma_seq_skip_of_skip;

    let mut i = pos;
    loop
        invariant
            pos <= i <= s@.len(),
            scan_digits(s@.skip(pos as int)) == i - pos + scan_digits(s@.skip(i as int)),
        decreases s@.len() - i,
    {
        proof {
            lemma_scan_digits_bounds(s@.skip(i as int));
        }
        if i < s.len() && digit(s[i]) {
            proof {
                assert(s@.skip(i as int)[0] == s@[i as int]);
                assert(s@.skip(i as int).skip(1) == s@.skip(i as int + 1));
            }
            i = i + 1;
        } else {
            proof {
                assert(scan_digits(s@.skip(i as int)) == 0);
            }
            return i;
        }
    }
}

/// End of the run of whitespace that starts at `pos`.
pub fn space_end(s: &Vec<u8>, pos: usize) -> (r: usize)
    requires
        pos <= s@.len(),
    ensures
        r - pos == scan_space(s@.skip(pos as int)),
        pos <= r <= s@.len(),
{
    broadcast use vstd::seq_lib::lemma_seq_skip_of_skip;

    let mut i = pos;
    loop
        invariant
            pos <= i <= s@.len(),
            scan_space(s@.skip(pos as int)) == i - pos + scan_space(s@.skip(i as int)),
        decreases s@.len() - i,
    {
        proof {
            lemma_scan_space_bounds(s@.skip(i as int));
        }
        if i < s.len() && (s[i] == SPACE || s[i] == TAB) {
            proof {
                assert(s@.skip(i as int)[0] == s@[i as int]);
                assert(s@.skip(i as int).skip(1) == s@.skip(i as int + 1));
            }
            i = i + 1;
        } else {
            proof {
                assert(scan_space(s@.skip(i as int)) == 0);
            }
            return i;
        }
    }
}

/// End of the optional exponent part that starts at `pos`; `pos` itself
/// when none stands there.
fn exponent_end(s: &Vec<u8>, pos: usize) -> (r: usize)
    requires
        pos <= s@.len(),
    ensures
        r - pos == scan_exponent(s@.skip(pos as int)),
        pos <= r <= s@.len(),
{
    broadcast use vstd::seq_lib::lemma_seq_skip_of_skip;

    let ghost t = s@.skip(pos as int);
    if pos < s.len() && (s[pos] == LOWER_E || s[pos] == UPPER_E) {
        let q = if pos + 1 < s.len() && (s[pos + 1] == PLUS || s[pos + 1] == MINUS) {
            pos + 2
        } else {
            pos + 1
        };
        proof {
            assert(t[0] == s@[pos as int]);
            assert(t.len() > 1 ==> t[1] == s@[pos as int + 1]);
        }
        if q < s.len() && digit(s[q]) {
            proof {
                assert(t[q - pos] == s@[q as int]);
            }
            let e = digits_end(s, q);
            proof {
                assert(t.skip(q - pos) == s@.skip(q as int));
            }
            e
        } else {
            proof {
                assert(q - pos < t.len() ==> t[q - pos] == s@[q as int]);
            }
            pos
        }
    } else {
        pos
    }
}

/// The numeral that starts at `pos`: its end when one stands there.
#[verifier::spinoff_prover]
#[verifier::rlimit(80)]
pub fn number(s: &Vec<u8>, pos: usize) -> (r: Option<usize>)
    requires
        pos <= s@.len(),
    ensures
        match r {
            Some(end) => scan_number(s@.skip(pos as int)) == Some(end - pos) && pos < end
                <= s@.len(),
            None => scan_number(s@.skip(pos as int)) is None,
        },
{
    broadcast use vstd::seq_lib::lemma_seq_skip_of_skip;

    let ghost whole = s@.skip(pos as int);
    let p = if pos < s.len() && (s[pos] == PLUS || s[pos] == MINUS) {
        pos + 1
    } else {
        pos
    };
    proof {
        assert(whole.len() > 0 ==> whole[0] == s@[pos as int]);
        assert(whole.skip(p - pos) == s@.skip(p as int));
    }
    let ghost t = s@.skip(p as int);
    if p < s.len() && digit(s[p]) {
        proof {
            assert(t[0] == s@[p as int]);
        }
        let d = digits_end(s, p);
        proof {
            lemma_scan_digits_bounds(t);
            assert(d - p == scan_digits(t));
            assert(d < s@.len() ==> t[d - p] == s@[d as int]);
        }
        let f = if d < s.len() && s[d] == DOT {
            let fe = digits_end(s, d + 1);
            proof {
                assert(t.skip(d - p + 1) == s@.skip(d as int + 1));
            }
            fe
        } else {
            d
        };
        proof {
            assert(t.skip(f - p) == s@.skip(f as int));
        }
        let e = exponent_end(s, f);
        Some(e)
    } else if s.len() - p > 1 && s[p] == DOT && digit(s[p + 1]) {
        proof {
            assert(t.len() > 1);
            assert(t[0] == s@[p as int]);
            assert(t[1] == s@[p as int + 1]);
            assert(t.skip(1) == s@.skip(p as int + 1));
        }
        let d = digits_end(s, p + 1);
        proof {
            assert(t.skip(d - p) == s@.skip(d as int));
        }
        let e = exponent_end(s, d);
        Some(e)
    } else {
        proof {
            assert(t.len() > 0 ==> t[0] == s@[p as int]);
            assert(t.len() > 1 ==> t[1] == s@[p as int + 1]);
        }
        None
    }
}

/// The operator symbol that starts at `pos`: the operator and its end.
pub fn operator(s: &Vec<u8>, pos: usize) -> (r: Option<(Operator, usize)>)
    requires
        pos <= s@.len(),
    ensures
        match r {
            Some(p) => scan_operator(s@.skip(pos as int)) == Some((p.0, p.1 - pos as int)) && pos
                < p.1 <= s@.len(),
            None => scan_operator(s@.skip(pos as int)) is None,
        },
{
    let ghost t = s@.skip(pos as int);
    proof {
        assert(t.len() > 0 ==> t[0] == s@[pos as int]);
        assert(t.len() > 1 ==> t[1] == s@[pos as int + 1]);
        assert(t.len() > 2 ==> t[2] == s@[pos as int + 2]);
    }
    if pos >= s.len() {
        return None;
    }
    let b = s[pos];
    if b == PLUS {
        Some((Operator::Add, pos + 1))
    } else if b == MINUS {
        Some((Operator::Sub, pos + 1))
    } else if b == STAR {
        Some((Operator::Mul, pos + 1))
    } else if b == SLASH {
        Some((Operator::Div, pos + 1))
    } else if b == PERCENT {
        Some((Operator::Mod, pos + 1))
    } else if b == CARET {
        Some((Operator::Pow, pos + 1))
    } else if b == LOWER_L && s.len() - pos > 2 && s[pos + 1] == LOWER_O && s[pos + 2] == LOWER_G {
        Some((Operator::Log, pos + 3))
    } else {
        None
    }
}


/// A run of digits followed by anything that does not begin with a digit
/// scans as exactly that run.
pub proof fn lemma_scan_digits_concat(a: Seq<u8>, b: Seq<u8>)
    requires
        forall|i: int| 0 <= i < a.len() ==> is_digit(a[i]),
        b.len() == 0 || !is_digit(b[0]),
    ensures
        scan_digits(a + b) == a.len(),
    decreases a.len(),
{
    if a.len() == 0 {
        assert(a + b =~= b);
    } else {
        assert((a + b)[0] == a[0]);
        assert((a + b).skip(1) =~= a.skip(1) + b);
        assert forall|i: int| 0 <= i < a.skip(1).len() implies is_digit(a.skip(1)[i]) by {
            assert(a.skip(1)[i] == a[i + 1]);
        }
        lemma_scan_digits_concat(a.skip(1), b);
    }
}

/// An exponent part that spans `v` whole still scans as `v` with more
/// input behind it, provided that input cannot extend it.
proof fn lemma_scan_exponent_append(v: Seq<u8>, rest: Seq<u8>)
    requires
        scan_exponent(v) == v.len() as int,
        rest.len() > 0 ==> !is_digit(rest[0]) && !is_exponent_mark(rest[0]),
    ensures
        scan_exponent(v + rest) == v.len() as int,
{
    let s = v + rest;
    if v.len() == 0 {
        assert(s =~= rest);
    } else {
        assert(is_exponent_mark(v[0]));
        assert(s[0] == v[0]);
        assert(v.len() >= 2) by {
            if v.len() == 1 {
                assert(scan_exponent(v) == 0);
            }
        }
        assert(s[1] == v[1]);
        let q: int = if v.len() > 1 && is_sign(v[1]) {
            2
        } else {
            1
        };
        assert(q < v.len() && is_digit(v[q])) by {
            if !(q < v.len() && is_digit(v[q])) {
                assert(scan_exponent(v) == 0);
            }
        }
        assert(s[q] == v[q]);
        let a = v.skip(q);
        lemma_scan_digits_bounds(a);
        assert(q + scan_digits(a) == v.len());
        assert forall|i: int| 0 <= i < a.len() implies is_digit(a[i]) by {}
        assert(s.skip(q) =~= a + rest);
        lemma_scan_digits_concat(a, rest);
    }
}

/// A numeral that spans `u` whole still scans as `u` with more input
/// behind it, provided that input cannot extend it (it does not begin with
/// a digit, a dot, or an exponent mark).
#[verifier::spinoff_prover]
#[verifier::rlimit(80)]
pub proof fn lemma_scan_number_append(u: Seq<u8>, rest: Seq<u8>)
    requires
        scan_number(u) == Some(u.len() as int),
        rest.len() > 0 ==> !is_digit(rest[0]) && rest[0] != DOT && !is_exponent_mark(rest[0]),
    ensures
        scan_number(u + rest) == Some(u.len() as int),
{
    let s = u + rest;
    lemma_scan_number_bounds(u);
    assert(s[0] == u[0]);
    let p: int = if u.len() > 0 && is_sign(u[0]) {
        1
    } else {
        0
    };
    let t = u.skip(p);
    let ts = s.skip(p);
    assert(ts =~= t + rest);
    if t.len() > 0 && is_digit(t[0]) {
        assert(ts[0] == t[0]);
        let d = scan_digits(t);
        lemma_scan_digits_bounds(t);
        let f: int = if d < t.len() && t[d] == DOT {
            1 + scan_digits(t.skip(d + 1))
        } else {
            0
        };
        let e = scan_exponent(t.skip(d + f));
        lemma_scan_exponent_bounds(t.skip(d + f));
        if d < t.len() && t[d] == DOT {
            lemma_scan_digits_bounds(t.skip(d + 1));
        }
        assert(p + d + f + e == u.len());
        let a1 = t.subrange(0, d);
        let b1 = t.skip(d) + rest;
        assert(a1 + b1 =~= ts);
        assert(b1.len() == 0 || !is_digit(b1[0])) by {
            if d < t.len() {
                assert(b1[0] == t[d]);
            } else if rest.len() > 0 {
                assert(t.skip(d).len() == 0);
                assert(b1[0] == rest[0]);
            }
        }
        assert forall|i: int| 0 <= i < a1.len() implies is_digit(a1[i]) by {
            assert(a1[i] == t[i]);
        }
        lemma_scan_digits_concat(a1, b1);
        assert(scan_digits(ts) == d);
        if f > 0 {
            assert(ts[d] == t[d]);
            let fd = scan_digits(t.skip(d + 1));
            let a2 = t.skip(d + 1).subrange(0, fd);
            let b2 = t.skip(d + 1 + fd) + rest;
            assert(t.skip(d + 1).skip(fd) =~= t.skip(d + 1 + fd));
            assert(ts.skip(d + 1) =~= t.skip(d + 1) + rest);
            assert(a2 + b2 =~= ts.skip(d + 1));
            assert(b2.len() == 0 || !is_digit(b2[0])) by {
                if d + 1 + fd < t.len() {
                    assert(t.skip(d + 1 + fd).len() > 0);
                    assert(b2[0] == t.skip(d + 1)[fd]);
                } else if rest.len() > 0 {
                    assert(t.skip(d + 1 + fd).len() == 0);
                    assert(b2[0] == rest[0]);
                }
            }
            assert forall|i: int| 0 <= i < a2.len() implies is_digit(a2[i]) by {
                assert(a2[i] == t.skip(d + 1)[i]);
            }
            lemma_scan_digits_concat(a2, b2);
            assert(scan_digits(ts.skip(d + 1)) == fd);
        } else {
            if d < ts.len() {
                if d < t.len() {
                } else {
                    assert(ts[d] == rest[d - t.len()]);
                }
            }
        }
        assert(ts.skip(d + f) =~= t.skip(d + f) + rest);
        assert(e == t.skip(d + f).len());
        lemma_scan_exponent_append(t.skip(d + f), rest);
        assert(scan_exponent(ts.skip(d + f)) == e);
        assert(scan_number(s) == Some(p + d + f + e));
    } else {
        assert(t.len() > 1 && t[0] == DOT && is_digit(t[1]));
        assert(ts[0] == t[0]);
        assert(ts[1] == t[1]);
        let d = 1 + scan_digits(t.skip(1));
        lemma_scan_digits_bounds(t.skip(1));
        let e = scan_exponent(t.skip(d));
        lemma_scan_exponent_bounds(t.skip(d));
        assert(p + d + e == u.len());
        let fd = scan_digits(t.skip(1));
        let a2 = t.skip(1).subrange(0, fd);
        let b2 = t.skip(1 + fd) + rest;
        assert(t.skip(1).skip(fd) =~= t.skip(1 + fd));
        assert(ts.skip(1) =~= t.skip(1) + rest);
        assert(a2 + b2 =~= ts.skip(1));
        assert(b2.len() == 0 || !is_digit(b2[0])) by {
            if 1 + fd < t.len() {
                assert(t.skip(1 + fd).len() > 0);
                assert(b2[0] == t.skip(1)[fd]);
            } else if rest.len() > 0 {
                assert(t.skip(1 + fd).len() == 0);
                assert(b2[0] == rest[0]);
            }
        }
        assert forall|i: int| 0 <= i < a2.len() implies is_digit(a2[i]) by {
            assert(a2[i] == t.skip(1)[i]);
        }
        lemma_scan_digits_concat(a2, b2);
        assert(scan_digits(ts.skip(1)) == fd);
        assert(ts.skip(d) =~= t.skip(d) + rest);
        assert(e == t.skip(d).len());
        lemma_scan_exponent_append(t.skip(d), rest);
        assert(scan_number(s) == Some(p + d + e));
    }
}

/// The canonical symbol of `op` at the front of any input scans as `op`.
pub proof fn lemma_scan_operator_symbol(op: Operator, z: Seq<u8>)
    ensures
        scan_operator(operator_symbol(op) + z) == Some(
            (op, operator_symbol(op).len() as int),
        ),
{
    let s = operator_symbol(op) + z;
    match op {
        Operator::Add => {
            assert(s[0] == PLUS);
        },
        Operator::Sub => {
            assert(s[0] == MINUS);
        },
        Operator::Mul => {
            assert(s[0] == STAR);
        },
        Operator::Div => {
            assert(s[0] == SLASH);
        },
        Operator::Mod => {
            assert(s[0] == PERCENT);
        },
        Operator::Pow => {
            assert(s[0] == CARET);
        },
        Operator::Log => {
            assert(s[0] == LOWER_L);
            assert(s[1] == LOWER_O);
            assert(s[2] == LOWER_G);
        },
    }
}

/// The first byte of an operator symbol is not whitespace.
pub proof fn lemma_operator_symbol_head(op: Operator)
    ensures
        operator_symbol(op).len() > 0,
        !is_space(operator_symbol(op)[0]),
{
    match op {
        Operator::Add => {},
        Operator::Sub => {},
        Operator::Mul => {},
        Operator::Div => {},
        Operator::Mod => {},
        Operator::Pow => {},
        Operator::Log => {},
    }
}

} // verus!
