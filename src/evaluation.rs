//! Direct evaluation of numeric expressions, and the proof that running the
//! compiled code gives the same number when both use the same arithmetic.
use vstd::prelude::*;
use crate::compiler::{
    binary_code, expr_code, higher_spec, infix_code, infix_prec, operator_code, operator_of,
    prec_level, prefix_code, program_code, Operator, Precedence,
};
use crate::opcode;
use crate::pos::Spanned;
use crate::token::{rule_of, Token, TokenType};
use crate::value::{num_neg, Value};
use crate::vm::{binary_op_of, complete_run, step_spec, BinaryOp, ErrorKind, Halt};

verus! {

/// The arithmetic instruction of an arithmetic operator.
pub open spec fn arith_of(op: Operator) -> Option<BinaryOp> {
    match op {
        Operator::Plus => Some(BinaryOp::Add),
        Operator::Minus => Some(BinaryOp::Sub),
        Operator::Star => Some(BinaryOp::Mul),
        Operator::Slash => Some(BinaryOp::Div),
        _ => None,
    }
}

/// The value (an `f32` encoding) of the expression of at least precedence
/// `p` that starts at index `i`, and the index of its last token, where it
/// is made of number literals, `-`, `+`, `*`, `/` and groups only; `arith`
/// computes the binary operations.
pub open spec fn eval_expr(
    toks: Seq<Spanned<Token>>,
    nums: Seq<u32>,
    i: int,
    p: Precedence,
    arith: spec_fn(BinaryOp, u32, u32) -> u32,
) -> Option<(u32, int)>
    decreases toks.len() - i, 3nat,
{
    if i < 0 || i >= toks.len() {
        None
    } else {
        match eval_prefix(toks, nums, i, arith) {
            None => None,
            Some(r) => if i <= r.1 < toks.len() {
                eval_infix(toks, nums, r.1, p, arith, r.0)
            } else {
                None
            },
        }
    }
}

/// The value of the operand that starts at index `i`.
pub open spec fn eval_prefix(
    toks: Seq<Spanned<Token>>,
    nums: Seq<u32>,
    i: int,
    arith: spec_fn(BinaryOp, u32, u32) -> u32,
) -> Option<(u32, int)>
    decreases toks.len() - i, 2nat,
{
    if i < 0 || i >= toks.len() {
        None
    } else {
        match toks[i].value.ty {
            TokenType::Number(_) => Some((nums[i], i)),
            TokenType::Minus => match eval_expr(toks, nums, i + 1, Precedence::Unary, arith) {
                Some(r) => Some((num_neg(r.0), r.1)),
                None => None,
            },
            TokenType::LParen => match eval_expr(toks, nums, i + 1, Precedence::Assignment, arith) {
                Some(r) => if r.1 + 1 < toks.len() && toks[r.1 + 1].value.ty is RParen {
                    Some((r.0, r.1 + 1))
                } else {
                    None
                },
                None => None,
            },
            _ => None,
        }
    }
}

/// The value of `left`, then the arithmetic operator after index `j` (of
/// precedence `q`), then its right operand.
pub open spec fn eval_binary(
    toks: Seq<Spanned<Token>>,
    nums: Seq<u32>,
    j: int,
    q: Precedence,
    arith: spec_fn(BinaryOp, u32, u32) -> u32,
    left: u32,
) -> Option<(u32, int)>
    decreases toks.len() - j, 1nat,
{
    if j < 0 || j + 1 >= toks.len() {
        None
    } else {
        match operator_of(toks[j + 1].value.ty) {
            Some(op) => match arith_of(op) {
                Some(b) => match eval_expr(toks, nums, j + 2, higher_spec(q), arith) {
                    Some(r) => Some((arith(b, left, r.0), r.1)),
                    None => None,
                },
                None => None,
            },
            None => None,
        }
    }
}

/// Continues the value `acc` of an expression of at least precedence `p`
/// whose last token so far is at `j`.
pub open spec fn eval_infix(
    toks: Seq<Spanned<Token>>,
    nums: Seq<u32>,
    j: int,
    p: Precedence,
    arith: spec_fn(BinaryOp, u32, u32) -> u32,
    acc: u32,
) -> Option<(u32, int)>
    decreases toks.len() - j, 2nat,
{
    if j < 0 || j + 1 >= toks.len() {
        Some((acc, j))
    } else {
        match infix_prec(rule_of(toks[j + 1].value.ty)) {
            None => Some((acc, j)),
            Some(q) => if prec_level(q) < prec_level(p) {
                Some((acc, j))
            } else {
                match eval_binary(toks, nums, j, q, arith, acc) {
                    None => None,
                    Some(r) => if j < r.1 < toks.len() {
                        eval_infix(toks, nums, r.1, p, arith, r.0)
                    } else {
                        None
                    },
                }
            },
        }
    }
}

/// Whether runs from the two states end the same way, at the same place.
pub open spec fn same_end(
    code: Seq<u8>,
    consts: Seq<Value>,
    lines: Seq<u32>,
    arith: spec_fn(BinaryOp, u32, u32) -> u32,
    ip1: nat,
    st1: Seq<Value>,
    ip2: nat,
    st2: Seq<Value>,
) -> bool {
    let a = complete_run(code, consts, lines, ip1, st1, arith);
    let b = complete_run(code, consts, lines, ip2, st2, arith);
    a.0 == b.0 && a.1 == b.1
}

/// Whether a run ended because the stack overflowed.
pub open spec fn overflowed(h: Halt) -> bool {
    h is Error && h->Error_0.kind == ErrorKind::StackOverflow
}

/// Whether the run from the first state overflows the stack, or ends as
/// the run from the second state does.
pub open spec fn reaches(
    code: Seq<u8>,
    consts: Seq<Value>,
    lines: Seq<u32>,
    arith: spec_fn(BinaryOp, u32, u32) -> u32,
    ip1: nat,
    st1: Seq<Value>,
    ip2: nat,
    st2: Seq<Value>,
) -> bool {
    overflowed(complete_run(code, consts, lines, ip1, st1, arith).0) || same_end(
        code,
        consts,
        lines,
        arith,
        ip1,
        st1,
        ip2,
        st2,
    )
}

/// Whether `c` stands in `code` at `ip`, and `vc` in `consts` at `k`.
pub open spec fn placed(code: Seq<u8>, consts: Seq<Value>, ip: nat, c: Seq<u8>, k: nat, vc: Seq<Value>) -> bool {
    &&& ip + c.len() <= code.len()
    &&& code.subrange(ip as int, (ip + c.len()) as int) == c
    &&& k + vc.len() <= consts.len()
    &&& consts.subrange(k as int, (k + vc.len()) as int) == vc
}

/// Continuing an expression only appends to its code and constants.
proof fn lemma_infix_extends(
    toks: Seq<Spanned<Token>>,
    nums: Seq<u32>,
    j: int,
    p: Precedence,
    k: nat,
    code: Seq<u8>,
    consts: Seq<Value>,
    lines: Seq<u32>,
)
    requires
        infix_code(toks, nums, j, p, k, code, consts, lines) is Some,
    ensures
        code.len() <= infix_code(toks, nums, j, p, k, code, consts, lines).unwrap().0.len(),
        infix_code(toks, nums, j, p, k, code, consts, lines).unwrap().0.take(code.len() as int) == code,
        consts.len() <= infix_code(toks, nums, j, p, k, code, consts, lines).unwrap().1.len(),
        infix_code(toks, nums, j, p, k, code, consts, lines).unwrap().1.take(consts.len() as int) == consts,
    decreases toks.len() - j,
{
    let r = infix_code(toks, nums, j, p, k, code, consts, lines).unwrap();
    if j < 0 || j + 1 >= toks.len() {
        assert(r.0.take(code.len() as int) =~= code);
        assert(r.1.take(consts.len() as int) =~= consts);
    } else {
        match infix_prec(rule_of(toks[j + 1].value.ty)) {
            None => {
                assert(r.0.take(code.len() as int) =~= code);
                assert(r.1.take(consts.len() as int) =~= consts);
            },
            Some(q) => if prec_level(q) < prec_level(p) {
                assert(r.0.take(code.len() as int) =~= code);
                assert(r.1.take(consts.len() as int) =~= consts);
            } else {
                let b = binary_code(toks, nums, j, q, k + consts.len()).unwrap();
                lemma_infix_extends(toks, nums, b.2, p, k, code + b.0, consts + b.1, lines + b.3);
                assert(r.0.take(code.len() as int) =~= r.0.take((code + b.0).len() as int).take(code.len() as int));
                assert(r.1.take(consts.len() as int) =~= r.1.take((consts + b.1).len() as int).take(consts.len() as int));
            },
        }
    }
}

/// Runs that reach one another chain.
proof fn lemma_same_end_trans(
    code: Seq<u8>,
    consts: Seq<Value>,
    lines: Seq<u32>,
    arith: spec_fn(BinaryOp, u32, u32) -> u32,
    ip1: nat,
    st1: Seq<Value>,
    ip2: nat,
    st2: Seq<Value>,
    ip3: nat,
    st3: Seq<Value>,
)
    requires
        reaches(code, consts, lines, arith, ip1, st1, ip2, st2),
        reaches(code, consts, lines, arith, ip2, st2, ip3, st3),
    ensures
        reaches(code, consts, lines, arith, ip1, st1, ip3, st3),
{
}

/// A piece placed inside a larger placed piece is placed too.
proof fn lemma_placed_part(
    code: Seq<u8>,
    consts: Seq<Value>,
    ip: nat,
    c: Seq<u8>,
    k: nat,
    vc: Seq<Value>,
    from: nat,
    to: nat,
    kfrom: nat,
    kto: nat,
)
    requires
        placed(code, consts, ip, c, k, vc),
        from <= to <= c.len(),
        kfrom <= kto <= vc.len(),
    ensures
        placed(code, consts, ip + from, c.subrange(from as int, to as int), k + kfrom, vc.subrange(kfrom as int, kto as int)),
{
    assert(code.subrange((ip + from) as int, (ip + from + (to - from)) as int) =~= c.subrange(from as int, to as int)) by {
        assert forall|x: int| 0 <= x < to - from implies code.subrange((ip + from) as int, (ip + from + (to - from)) as int)[x]
            == c.subrange(from as int, to as int)[x] by {
            assert(code.subrange(ip as int, (ip + c.len()) as int)[from + x] == c[from + x]);
        }
    }
    assert(consts.subrange((k + kfrom) as int, (k + kfrom + (kto - kfrom)) as int) =~= vc.subrange(kfrom as int, kto as int)) by {
        assert forall|x: int| 0 <= x < kto - kfrom implies consts.subrange((k + kfrom) as int, (k + kfrom + (kto - kfrom)) as int)[x]
            == vc.subrange(kfrom as int, kto as int)[x] by {
            assert(consts.subrange(k as int, (k + vc.len()) as int)[kfrom + x] == vc[kfrom + x]);
        }
    }
}

/// Running the code of an expression pushes its value.
proof fn lemma_expr(
    toks: Seq<Spanned<Token>>,
    nums: Seq<u32>,
    i: int,
    p: Precedence,
    k: nat,
    code: Seq<u8>,
    consts: Seq<Value>,
    lines: Seq<u32>,
    arith: spec_fn(BinaryOp, u32, u32) -> u32,
    ip: nat,
    st: Seq<Value>,
)
    requires
        eval_expr(toks, nums, i, p, arith) is Some,
        expr_code(toks, nums, i, p, k) is Some,
        placed(code, consts, ip, expr_code(toks, nums, i, p, k).unwrap().0, k, expr_code(toks, nums, i, p, k).unwrap().1),
        1 <= st.len(),
    ensures
        expr_code(toks, nums, i, p, k).unwrap().2 == eval_expr(toks, nums, i, p, arith).unwrap().1,
        reaches(code, consts, lines, arith, ip, st,
            ip + expr_code(toks, nums, i, p, k).unwrap().0.len(),
            st.push(Value::Number(eval_expr(toks, nums, i, p, arith).unwrap().0))),
    decreases toks.len() - i, 3nat,
{
    let ec = expr_code(toks, nums, i, p, k).unwrap();
    let pc = prefix_code(toks, nums, i, k).unwrap();
    let pe = eval_prefix(toks, nums, i, arith).unwrap();
    lemma_infix_extends(toks, nums, pc.2, p, k, pc.0, pc.1, pc.3);
    assert(ec.0.subrange(0, pc.0.len() as int) =~= pc.0);
    assert(ec.1.subrange(0, pc.1.len() as int) =~= pc.1);
    lemma_placed_part(code, consts, ip, ec.0, k, ec.1, 0, pc.0.len(), 0, pc.1.len());
    lemma_prefix(toks, nums, i, k, code, consts, lines, arith, ip, st);
    let t = ec.0.subrange(pc.0.len() as int, ec.0.len() as int);
    let w = ec.1.subrange(pc.1.len() as int, ec.1.len() as int);
    assert(t =~= ec.0.skip(pc.0.len() as int));
    assert(w =~= ec.1.skip(pc.1.len() as int));
    lemma_placed_part(code, consts, ip, ec.0, k, ec.1, pc.0.len(), ec.0.len(), pc.1.len(), ec.1.len());
    lemma_infix(toks, nums, pc.2, p, k, pc.0, pc.1, pc.3, pe.0, code, consts, lines, arith, ip + pc.0.len(), st);
    lemma_same_end_trans(code, consts, lines, arith, ip, st, ip + pc.0.len(), st.push(Value::Number(pe.0)),
        ip + ec.0.len(), st.push(Value::Number(eval_expr(toks, nums, i, p, arith).unwrap().0)));
}

/// Running the code of an operand pushes its value.
proof fn lemma_prefix(
    toks: Seq<Spanned<Token>>,
    nums: Seq<u32>,
    i: int,
    k: nat,
    code: Seq<u8>,
    consts: Seq<Value>,
    lines: Seq<u32>,
    arith: spec_fn(BinaryOp, u32, u32) -> u32,
    ip: nat,
    st: Seq<Value>,
)
    requires
        eval_prefix(toks, nums, i, arith) is Some,
        prefix_code(toks, nums, i, k) is Some,
        placed(code, consts, ip, prefix_code(toks, nums, i, k).unwrap().0, k, prefix_code(toks, nums, i, k).unwrap().1),
        1 <= st.len(),
    ensures
        prefix_code(toks, nums, i, k).unwrap().2 == eval_prefix(toks, nums, i, arith).unwrap().1,
        reaches(code, consts, lines, arith, ip, st,
            ip + prefix_code(toks, nums, i, k).unwrap().0.len(),
            st.push(Value::Number(eval_prefix(toks, nums, i, arith).unwrap().0))),
    decreases toks.len() - i, 2nat,
{
    let pc = prefix_code(toks, nums, i, k).unwrap();
    let pe = eval_prefix(toks, nums, i, arith).unwrap();
    match toks[i].value.ty {
        TokenType::Number(_) => {
            assert(pc.0 == seq![opcode::CONSTANT, k as u8]);
            assert(code[ip as int] == pc.0[0]);
            assert(code[ip + 1 as int] == pc.0[1]);
            assert(consts[k as int] == pc.1[0]);
            let s = step_spec(code, consts, lines, ip, st);
            assert(s.1 == ip + 2);
            if st.len() < crate::vm::STACK_MAX {
                assert(s.2 == st.push(pc.1[0]));
            } else {
                assert(overflowed(s.0->0));
            }
        },
        TokenType::Minus => {
            let ec = expr_code(toks, nums, i + 1, Precedence::Unary, k).unwrap();
            assert(pc.0 == ec.0.push(opcode::NEGATE));
            assert(ec.0 =~= pc.0.subrange(0, ec.0.len() as int));
            assert(ec.1 =~= pc.1.subrange(0, ec.1.len() as int));
            lemma_placed_part(code, consts, ip, pc.0, k, pc.1, 0, ec.0.len(), 0, ec.1.len());
            lemma_expr(toks, nums, i + 1, Precedence::Unary, k, code, consts, lines, arith, ip, st);
            let v = eval_expr(toks, nums, i + 1, Precedence::Unary, arith).unwrap().0;
            let at = ip + ec.0.len();
            assert(code[at as int] == pc.0[ec.0.len() as int]);
            let s = step_spec(code, consts, lines, at, st.push(Value::Number(v)));
            assert(s.1 == at + 1);
            assert(s.2 =~= st.push(Value::Number(num_neg(v))));
        },
        TokenType::LParen => {
            lemma_expr(toks, nums, i + 1, Precedence::Assignment, k, code, consts, lines, arith, ip, st);
        },
        _ => {},
    }
}

/// Running the code of an operator's right operand and of the operator,
/// with the left value on the stack, leaves the result there.
proof fn lemma_binary(
    toks: Seq<Spanned<Token>>,
    nums: Seq<u32>,
    j: int,
    q: Precedence,
    k: nat,
    left: u32,
    code: Seq<u8>,
    consts: Seq<Value>,
    lines: Seq<u32>,
    arith: spec_fn(BinaryOp, u32, u32) -> u32,
    ip: nat,
    st: Seq<Value>,
)
    requires
        eval_binary(toks, nums, j, q, arith, left) is Some,
        binary_code(toks, nums, j, q, k) is Some,
        placed(code, consts, ip, binary_code(toks, nums, j, q, k).unwrap().0, k, binary_code(toks, nums, j, q, k).unwrap().1),
        1 <= st.len(),
    ensures
        binary_code(toks, nums, j, q, k).unwrap().2 == eval_binary(toks, nums, j, q, arith, left).unwrap().1,
        reaches(code, consts, lines, arith, ip, st.push(Value::Number(left)),
            ip + binary_code(toks, nums, j, q, k).unwrap().0.len(),
            st.push(Value::Number(eval_binary(toks, nums, j, q, arith, left).unwrap().0))),
    decreases toks.len() - j, 1nat,
{
    let bc = binary_code(toks, nums, j, q, k).unwrap();
    let op = operator_of(toks[j + 1].value.ty).unwrap();
    let b = arith_of(op).unwrap();
    let ec = expr_code(toks, nums, j + 2, higher_spec(q), k).unwrap();
    let v2 = eval_expr(toks, nums, j + 2, higher_spec(q), arith).unwrap().0;
    assert(bc.0 == ec.0 + operator_code(op));
    assert(operator_code(op).len() == 1);
    assert(ec.0 =~= bc.0.subrange(0, ec.0.len() as int));
    assert(ec.1 =~= bc.1.subrange(0, ec.1.len() as int));
    lemma_placed_part(code, consts, ip, bc.0, k, bc.1, 0, ec.0.len(), 0, ec.1.len());
    let sl = st.push(Value::Number(left));
    lemma_expr(toks, nums, j + 2, higher_spec(q), k, code, consts, lines, arith, ip, sl);
    let at = ip + ec.0.len();
    let byte = operator_code(op)[0];
    assert(code[at as int] == bc.0[ec.0.len() as int]);
    assert(code[at as int] == byte);
    assert(binary_op_of(byte) == b);
    let s2 = sl.push(Value::Number(v2));
    assert(s2.last() == Value::Number(v2));
    assert(s2[s2.len() - 2] == Value::Number(left));
    assert(s2.take(s2.len() - 2) =~= st);
    let s = step_spec(code, consts, lines, at, s2);
    assert(s.0 == Some(Halt::Arithmetic(b, left, v2)));
    assert(s.1 == at + 1);
    assert(s.2 == st);
}

/// Running the code that continues an expression, with the value so far
/// on the stack, leaves the value of the whole expression there.
proof fn lemma_infix(
    toks: Seq<Spanned<Token>>,
    nums: Seq<u32>,
    j: int,
    p: Precedence,
    k: nat,
    c0: Seq<u8>,
    v0: Seq<Value>,
    l0: Seq<u32>,
    acc: u32,
    code: Seq<u8>,
    consts: Seq<Value>,
    lines: Seq<u32>,
    arith: spec_fn(BinaryOp, u32, u32) -> u32,
    ip: nat,
    st: Seq<Value>,
)
    requires
        eval_infix(toks, nums, j, p, arith, acc) is Some,
        infix_code(toks, nums, j, p, k, c0, v0, l0) is Some,
        c0.len() <= infix_code(toks, nums, j, p, k, c0, v0, l0).unwrap().0.len(),
        v0.len() <= infix_code(toks, nums, j, p, k, c0, v0, l0).unwrap().1.len(),
        placed(code, consts, ip,
            infix_code(toks, nums, j, p, k, c0, v0, l0).unwrap().0.skip(c0.len() as int),
            k + v0.len(),
            infix_code(toks, nums, j, p, k, c0, v0, l0).unwrap().1.skip(v0.len() as int)),
        1 <= st.len(),
    ensures
        infix_code(toks, nums, j, p, k, c0, v0, l0).unwrap().2 == eval_infix(toks, nums, j, p, arith, acc).unwrap().1,
        reaches(code, consts, lines, arith, ip, st.push(Value::Number(acc)),
            ip + infix_code(toks, nums, j, p, k, c0, v0, l0).unwrap().0.skip(c0.len() as int).len(),
            st.push(Value::Number(eval_infix(toks, nums, j, p, arith, acc).unwrap().0))),
    decreases toks.len() - j, 2nat,
{
    let r = infix_code(toks, nums, j, p, k, c0, v0, l0).unwrap();
    lemma_infix_extends(toks, nums, j, p, k, c0, v0, l0);
    if j < 0 || j + 1 >= toks.len() {
    } else {
        match infix_prec(rule_of(toks[j + 1].value.ty)) {
            None => {},
            Some(q) => if prec_level(q) < prec_level(p) {
            } else {
                let bc = binary_code(toks, nums, j, q, k + v0.len()).unwrap();
                let be = eval_binary(toks, nums, j, q, arith, acc).unwrap();
                let c1 = c0 + bc.0;
                let v1 = v0 + bc.1;
                let l1 = l0 + bc.3;
                lemma_infix_extends(toks, nums, bc.2, p, k, c1, v1, l1);
                let t = r.0.skip(c0.len() as int);
                let w = r.1.skip(v0.len() as int);
                assert(t.subrange(0, bc.0.len() as int) =~= bc.0) by {
                    assert(r.0.take(c1.len() as int) == c1);
                    assert forall|x: int| 0 <= x < bc.0.len() implies t.subrange(0, bc.0.len() as int)[x] == bc.0[x] by {
                        assert(r.0.take(c1.len() as int)[c0.len() + x] == c1[c0.len() + x]);
                    }
                }
                assert(w.subrange(0, bc.1.len() as int) =~= bc.1) by {
                    assert(r.1.take(v1.len() as int) == v1);
                    assert forall|x: int| 0 <= x < bc.1.len() implies w.subrange(0, bc.1.len() as int)[x] == bc.1[x] by {
                        assert(r.1.take(v1.len() as int)[v0.len() + x] == v1[v0.len() + x]);
                    }
                }
                lemma_placed_part(code, consts, ip, t, k + v0.len(), w, 0, bc.0.len(), 0, bc.1.len());
                lemma_binary(toks, nums, j, q, k + v0.len(), acc, code, consts, lines, arith, ip, st);
                assert(t.subrange(bc.0.len() as int, t.len() as int) =~= r.0.skip(c1.len() as int));
                assert(w.subrange(bc.1.len() as int, w.len() as int) =~= r.1.skip(v1.len() as int));
                lemma_placed_part(code, consts, ip, t, k + v0.len(), w, bc.0.len(), t.len(), bc.1.len(), w.len());
                lemma_infix(toks, nums, bc.2, p, k, c1, v1, l1, be.0, code, consts, lines, arith, ip + bc.0.len(), st);
                lemma_same_end_trans(code, consts, lines, arith, ip, st.push(Value::Number(acc)),
                    ip + bc.0.len(), st.push(Value::Number(be.0)),
                    ip + t.len(), st.push(Value::Number(eval_infix(toks, nums, j, p, arith, acc).unwrap().0)));
            },
        }
    }
}

/// Compiling an expression made of number literals, `-`, `+`, `*`, `/` and
/// groups, and running the code to its end with `arith` doing the
/// machine's arithmetic, returns the value that evaluating the expression
/// directly with the same `arith` gives, unless the expression nests so
/// deep that the stack overflows.
pub proof fn lemma_compiled_expression_evaluates(
    toks: Seq<Spanned<Token>>,
    nums: Seq<u32>,
    lines: Seq<u32>,
    arith: spec_fn(BinaryOp, u32, u32) -> u32,
)
    requires
        eval_expr(toks, nums, 0, Precedence::Assignment, arith) is Some,
        program_code(toks, nums, 0, 0) is Some,
        !overflowed(
            complete_run(
                program_code(toks, nums, 0, 0).unwrap().0,
                program_code(toks, nums, 0, 0).unwrap().1,
                lines,
                0,
                seq![Value::Nil],
                arith,
            ).0,
        ),
    ensures
        complete_run(
            program_code(toks, nums, 0, 0).unwrap().0,
            program_code(toks, nums, 0, 0).unwrap().1,
            lines,
            0,
            seq![Value::Nil],
            arith,
        ).0 == Halt::Return(Value::Number(eval_expr(toks, nums, 0, Precedence::Assignment, arith).unwrap().0)),
{
    let ec = expr_code(toks, nums, 0, Precedence::Assignment, 0).unwrap();
    let v = eval_expr(toks, nums, 0, Precedence::Assignment, arith).unwrap().0;
    let code = ec.0.push(opcode::RETURN);
    let consts = ec.1;
    assert(code.subrange(0, ec.0.len() as int) =~= ec.0);
    assert(consts.subrange(0, ec.1.len() as int) =~= ec.1);
    let st = seq![Value::Nil];
    lemma_expr(toks, nums, 0, Precedence::Assignment, 0, code, consts, lines, arith, 0, st);
    let at = ec.0.len();
    assert(code[at as int] == opcode::RETURN);
    let s2 = st.push(Value::Number(v));
    assert(s2.last() == Value::Number(v));
    let s = step_spec(code, consts, lines, at, s2);
    assert(s.0 == Some(Halt::Return(Value::Number(v))));
    assert(s.1 == code.len());
}

} // verus!
