use vstd::prelude::*;
use crate::ast::{
    Expr, ExprV, Op1, Op2, bindings_view, exprs_view, lemma_bindings_view, lemma_exprs_view, is_keyword,
};
use crate::env::Env;
use crate::compile::{
    CompileError, CompileErrorV, expr_depth, if_count,
    loop_count, exprs_node_count, bindings_node_count, lemma_exprs_count_prefix,
    lemma_bindings_count_prefix, lemma_exprs_depth_at, lemma_bindings_depth_at,
};
use crate::x86::{Cond, Instr, Label, Operand, Reg, code_text, render_text};

verus! {

/// The numbers of the last `if` and `loop` labels handed out.
#[derive(Clone, Copy, PartialEq, Eq, Structural, Debug)]
pub struct LabelCounters {
    pub ifs: i32,
    pub loops: i32,
}

/// `rax`.
pub open spec fn rax() -> Operand {
    Operand::Reg(Reg::Rax)
}

/// `rbx`.
pub open spec fn rbx() -> Operand {
    Operand::Reg(Reg::Rbx)
}

/// `rcx`.
pub open spec fn rcx() -> Operand {
    Operand::Reg(Reg::Rcx)
}

/// The stack word of slot `si`.
pub open spec fn slot(si: int) -> Operand {
    Operand::Stack((si * 8) as i32)
}

/// Jump to the error routine unless `rax` holds a number (tag bit clear).
pub open spec fn number_guard() -> Seq<Instr> {
    seq![Instr::Test(rax(), Operand::Imm(1)), Instr::J(Cond::NZ, Label::SnekError)]
}

/// What follows the operand of a unary operator.
pub open spec fn unop_tail(op: Op1) -> Seq<Instr> {
    match op {
        Op1::Add1 => number_guard().push(Instr::Add(rax(), Operand::Imm(2))),
        Op1::Sub1 => number_guard().push(Instr::Sub(rax(), Operand::Imm(2))),
        Op1::IsNum => seq![
            Instr::Test(rax(), Operand::Imm(1)),
            Instr::Mov(rbx(), Operand::Imm(1)),
            Instr::Mov(rcx(), Operand::Imm(3)),
            Instr::CMov(Cond::Z, Reg::Rax, rcx()),
            Instr::CMov(Cond::NZ, Reg::Rax, rbx()),
        ],
        Op1::IsBool => seq![
            Instr::Test(rax(), Operand::Imm(1)),
            Instr::Mov(rbx(), Operand::Imm(1)),
            Instr::Mov(rcx(), Operand::Imm(3)),
            Instr::CMov(Cond::NZ, Reg::Rax, rcx()),
            Instr::CMov(Cond::Z, Reg::Rax, rbx()),
        ],
    }
}

/// The condition under which a comparison yields `true`.
pub open spec fn comparison_cond(op: Op2) -> Cond {
    match op {
        Op2::Greater => Cond::G,
        Op2::GreaterEqual => Cond::GE,
        Op2::Less => Cond::L,
        _ => Cond::LE,
    }
}

/// What follows the second operand of an arithmetic or ordering operator, the
/// first operand being in stack word `off` and the second in `rax`.
pub open spec fn binop_tail(op: Op2, off: Operand) -> Seq<Instr> {
    match op {
        Op2::Plus => seq![Instr::Add(rax(), off), Instr::J(Cond::O, Label::SnekError)],
        Op2::Minus => seq![
            Instr::Mov(rbx(), rax()),
            Instr::Mov(rax(), off),
            Instr::Sub(rax(), rbx()),
            Instr::J(Cond::O, Label::SnekError),
        ],
        Op2::Times => seq![
            Instr::Sar(Reg::Rax, 1),
            Instr::IMul(Reg::Rax, off),
            Instr::J(Cond::O, Label::SnekError),
        ],
        _ => seq![
            Instr::Mov(rbx(), rax()),
            Instr::Mov(rax(), off),
            Instr::Cmp(rax(), rbx()),
            Instr::Mov(rax(), Operand::Imm(1)),
            Instr::Mov(rbx(), Operand::Imm(3)),
            Instr::CMov(comparison_cond(op), Reg::Rax, rbx()),
        ],
    }
}

/// `s` with each instruction put on a line of its own, indented by `k`
/// spaces.
pub open spec fn indented(k: u8, s: Seq<Instr>) -> Seq<Instr>
    decreases s.len(),
{
    if s.len() == 0 {
        Seq::empty()
    } else {
        indented(k, s.drop_last()) + seq![Instr::NewLine(k), s.last()]
    }
}

/// What an equality test does after its second operand, which is in `rax`,
/// the first being in stack word `off`.
pub open spec fn equal_tail(off: Operand) -> Seq<Instr> {
    seq![
        Instr::Mov(rbx(), rax()),
        Instr::Xor(rbx(), off),
        Instr::Test(rbx(), Operand::Imm(1)),
        Instr::J(Cond::NZ, Label::SnekError),
        Instr::Cmp(rax(), off),
        Instr::Mov(rax(), Operand::Imm(1)),
        Instr::Mov(rbx(), Operand::Imm(3)),
        Instr::CMov(Cond::E, Reg::Rax, rbx()),
    ]
}

/// The code of a binary operator: first operand `c1`, saved to stack word
/// `off`, second operand `c2`, laid out on lines indented by 15 spaces with
/// a closing line break indented by 12. Equality accepts operands of either
/// type but both of one type; the others accept numbers only.
pub open spec fn binop_text(op: Op2, c1: Seq<Instr>, c2: Seq<Instr>, off: Operand) -> Seq<Instr> {
    if op == Op2::Equal {
        seq![Instr::NewLine(15)] + c1 + indented(15, seq![Instr::Mov(off, rax())]) + seq![
            Instr::NewLine(15),
        ] + c2 + indented(15, equal_tail(off)) + seq![Instr::NewLine(12)]
    } else {
        seq![Instr::NewLine(15)] + c1 + indented(15, number_guard().push(Instr::Mov(off, rax())))
            + seq![Instr::NewLine(15)] + c2 + indented(15, number_guard() + binop_tail(op, off))
            + seq![Instr::NewLine(12)]
    }
}

/// Whether a literal fits the 63 bits that a tagged number has.
pub open spec fn fits_63(n: int) -> bool {
    -4611686018427387904 <= n <= 4611686018427387903
}

/// The code of an `if` numbered `n`: its condition `ca`, its branches `ct`
/// and `cf`, laid out on lines indented by 15 spaces.
pub open spec fn if_text(n: i32, ca: Seq<Instr>, ct: Seq<Instr>, cf: Seq<Instr>) -> Seq<Instr> {
    seq![Instr::NewLine(15)] + ca + indented(
        15,
        seq![Instr::Cmp(rax(), Operand::Imm(1)), Instr::J(Cond::E, Label::IfElse(n))],
    ) + seq![Instr::NewLine(15)] + ct + indented(
        15,
        seq![Instr::Jmp(Label::IfEnd(n)), Instr::Mark(Label::IfElse(n))],
    ) + seq![Instr::NewLine(15)] + cf + indented(15, seq![Instr::Mark(Label::IfEnd(n))]) + seq![
        Instr::NewLine(12),
    ]
}

/// The code of a `loop` numbered `n` around its body `cb`, laid out on lines
/// indented by 15 spaces.
pub open spec fn loop_text(n: i32, cb: Seq<Instr>) -> Seq<Instr> {
    indented(15, seq![Instr::Mark(Label::LoopStart(n))]) + seq![Instr::NewLine(15)] + cb
        + indented(15, seq![Instr::Jmp(Label::LoopStart(n)), Instr::Mark(Label::LoopEnd(n))])
        + seq![Instr::NewLine(12)]
}

/// The line break before the `k`-th expression of a block, counting from one:
/// none before the first.
pub open spec fn item_break(k: int) -> Seq<Instr> {
    if k > 1 {
        seq![Instr::NewLine(0)]
    } else {
        Seq::empty()
    }
}

/// The code of a `let` binding evaluated by `cl` and stored to slot `cur`,
/// laid out on lines indented by 20 spaces, with a closing line break
/// indented by 16.
pub open spec fn binding_text(cur: int, cl: Seq<Instr>) -> Seq<Instr> {
    seq![Instr::NewLine(20)] + cl + indented(20, seq![Instr::Mov(slot(cur), rax())]) + seq![
        Instr::NewLine(16),
    ]
}

/// The assembly text compilation of `e`: the code, which leaves the value in
/// `rax`, and the counters after it. `si` is the first free stack slot, `env`
/// maps names to stack words, `brk` is the label a `break` jumps to.
pub open spec fn text_code(
    e: ExprV,
    si: int,
    env: Map<Seq<char>, i32>,
    brk: Option<Label>,
    c: LabelCounters,
) -> Result<(Seq<Instr>, LabelCounters), CompileErrorV>
    decreases e,
{
    match e {
        ExprV::Number(n) => if !fits_63(n as int) {
            Err(CompileErrorV::NumberOverflow)
        } else {
            Ok((seq![Instr::Mov(rax(), Operand::Imm((n * 2) as i64))], c))
        },
        ExprV::Boolean(b) => Ok(
            (seq![Instr::Mov(rax(), Operand::Imm(if b { 3 } else { 1 }))], c),
        ),
        ExprV::Id(x) => if x == "input"@ {
            Ok((seq![Instr::Mov(rax(), Operand::Reg(Reg::Rdi))], c))
        } else if env.contains_key(x) {
            Ok((seq![Instr::Mov(rax(), Operand::Stack(env[x]))], c))
        } else {
            Err(CompileErrorV::Unbound(x))
        },
        ExprV::UnOp(op, a) => match text_code(*a, si, env, brk, c) {
            Ok((ca, c1)) => Ok((ca + indented(0, unop_tail(op)), c1)),
            Err(x) => Err(x),
        },
        ExprV::BinOp(op, a, b) => match text_code(*a, si, env, brk, c) {
            Err(x) => Err(x),
            Ok((ca, c1)) => match text_code(*b, si + 1, env, brk, c1) {
                Err(x) => Err(x),
                Ok((cb, c2)) => Ok((binop_text(op, ca, cb, slot(si)), c2)),
            },
        },
        ExprV::If(a, t, f) => {
            let n = (c.ifs + 1) as i32;
            let c0 = LabelCounters { ifs: n, loops: c.loops };
            match text_code(*a, si, env, brk, c0) {
                Err(x) => Err(x),
                Ok((ca, c1)) => match text_code(*t, si, env, brk, c1) {
                    Err(x) => Err(x),
                    Ok((ct, c2)) => match text_code(*f, si, env, brk, c2) {
                        Err(x) => Err(x),
                        Ok((cf, c3)) => Ok((if_text(n, ca, ct, cf), c3)),
                    },
                },
            }
        },
        ExprV::Loop(b) => {
            let n = (c.loops + 1) as i32;
            let c0 = LabelCounters { ifs: c.ifs, loops: n };
            match text_code(*b, si, env, Some(Label::LoopEnd(n)), c0) {
                Err(x) => Err(x),
                Ok((cb, c1)) => Ok((loop_text(n, cb), c1)),
            }
        },
        ExprV::Break(a) => match brk {
            None => Err(CompileErrorV::BreakOutsideLoop),
            Some(l) => match text_code(*a, si, env, brk, c) {
                Err(x) => Err(x),
                Ok((ca, c1)) => Ok((ca + indented(0, seq![Instr::Jmp(l)]), c1)),
            },
        },
        ExprV::Assign(x, a) => if !env.contains_key(x) {
            Err(CompileErrorV::Unbound(x))
        } else {
            match text_code(*a, si, env, brk, c) {
                Err(err) => Err(err),
                Ok((ca, c1)) => Ok(
                    (ca + indented(0, seq![Instr::Mov(Operand::Stack(env[x]), rax())]), c1),
                ),
            }
        },
        ExprV::Block(es) => text_items(es, si, env, brk, c),
        ExprV::Let(bs, body) => match text_bindings(bs, si, env, brk, c) {
            Err(x) => Err(x),
            Ok((cb, env2, c1)) => match text_code(*body, si + bs.len(), env2, brk, c1) {
                Err(x) => Err(x),
                Ok((cbody, c2)) => Ok((cb + cbody, c2)),
            },
        },
        ExprV::Define(_, a) => text_code(*a, si, env, brk, c),
    }
}

/// The code of a block's expressions, one after another.
pub open spec fn text_items(
    es: Seq<ExprV>,
    si: int,
    env: Map<Seq<char>, i32>,
    brk: Option<Label>,
    c: LabelCounters,
) -> Result<(Seq<Instr>, LabelCounters), CompileErrorV>
    decreases es,
{
    if es.len() == 0 {
        Ok((Seq::empty(), c))
    } else {
        match text_items(es.drop_last(), si, env, brk, c) {
            Err(x) => Err(x),
            Ok((cp, c1)) => match text_code(es.last(), si, env, brk, c1) {
                Err(x) => Err(x),
                Ok((cl, c2)) => Ok((cp + item_break(es.len() as int) + cl, c2)),
            },
        }
    }
}

/// The code of a `let`'s bindings, each evaluated in the slot after the
/// previous one and stored there, with the map that names them.
pub open spec fn text_bindings(
    bs: Seq<(Seq<char>, ExprV)>,
    si: int,
    env: Map<Seq<char>, i32>,
    brk: Option<Label>,
    c: LabelCounters,
) -> Result<(Seq<Instr>, Map<Seq<char>, i32>, LabelCounters), CompileErrorV>
    decreases bs,
{
    if bs.len() == 0 {
        Ok((Seq::empty(), env, c))
    } else {
        match text_bindings(bs.drop_last(), si, env, brk, c) {
            Err(x) => Err(x),
            Ok((cp, env1, c1)) => {
                let cur = si + bs.len() - 1;
                if crate::ast::spec_is_keyword(bs.last().0) {
                    Err(CompileErrorV::KeywordAsIdentifier)
                } else {
                    match text_code(bs.last().1, cur, env1, brk, c1) {
                        Err(x) => Err(x),
                        Ok((cl, c2)) => Ok(
                            (
                                cp + binding_text(cur, cl),
                                env1.insert(bs.last().0, (cur * 8) as i32),
                                c2,
                            ),
                        ),
                    }
                }
            },
        }
    }
}



proof fn lemma_text_items_error_persists(
    es: Seq<ExprV>,
    k: int,
    si: int,
    env: Map<Seq<char>, i32>,
    brk: Option<Label>,
    c: LabelCounters,
)
    requires
        0 <= k <= es.len(),
        text_items(es.take(k), si, env, brk, c) is Err,
    ensures
        text_items(es, si, env, brk, c) == text_items(es.take(k), si, env, brk, c),
{
    let f = |t: Seq<ExprV>| text_items(t, si, env, brk, c);
    let failed = |r: Result<(Seq<Instr>, LabelCounters), CompileErrorV>| r is Err;
    assert forall|t: Seq<ExprV>| 0 < t.len() && #[trigger] failed(f(t.drop_last())) implies f(t) == f(
        t.drop_last(),
    ) by {}
    crate::prefix::lemma_failure_persists(f, failed, es, k);
}

proof fn lemma_text_bindings_error_persists(
    bs: Seq<(Seq<char>, ExprV)>,
    k: int,
    si: int,
    env: Map<Seq<char>, i32>,
    brk: Option<Label>,
    c: LabelCounters,
)
    requires
        0 <= k <= bs.len(),
        text_bindings(bs.take(k), si, env, brk, c) is Err,
    ensures
        text_bindings(bs, si, env, brk, c) == text_bindings(bs.take(k), si, env, brk, c),
{
    let f = |t: Seq<(Seq<char>, ExprV)>| text_bindings(t, si, env, brk, c);
    let failed = |r: Result<(Seq<Instr>, Map<Seq<char>, i32>, LabelCounters), CompileErrorV>| r is Err;
    assert forall|t: Seq<(Seq<char>, ExprV)>| 0 < t.len() && #[trigger] failed(f(t.drop_last())) implies f(t) == f(
        t.drop_last(),
    ) by {}
    crate::prefix::lemma_failure_persists(f, failed, bs, k);
}

/// Appends the instructions of `s`, each on a line of its own indented by
/// `k` spaces.
fn push_indented(out: &mut Vec<Instr>, k: u8, s: &Vec<Instr>)
    ensures
        final(out)@ == old(out)@ + indented(k, s@),
{
    let ghost before = out@;
    let mut j: usize = 0;
    assert(s@.take(0) =~= Seq::<Instr>::empty());
    assert(out@ =~= before + indented(k, s@.take(0)));
    while j < s.len()
        invariant
            j <= s@.len(),
            out@ == before + indented(k, s@.take(j as int)),
        decreases s@.len() - j,
    {
        assert(s@.take(j + 1).drop_last() =~= s@.take(j as int));
        assert(s@.take(j + 1).last() == s@[j as int]);
        out.push(Instr::NewLine(k));
        out.push(s[j]);
        assert(out@ =~= before + indented(k, s@.take(j + 1)));
        j = j + 1;
    }
    assert(s@.take(j as int) =~= s@);
}

/// The code that follows the operand of a unary operator.
fn unop_tail_code(op: Op1) -> (out: Vec<Instr>)
    ensures
        out@ == unop_tail(op),
{
    let mut out: Vec<Instr> = Vec::new();
    let rax = Operand::Reg(Reg::Rax);
    match op {
        Op1::Add1 | Op1::Sub1 => {
            out.push(Instr::Test(rax, Operand::Imm(1)));
            out.push(Instr::J(Cond::NZ, Label::SnekError));
            if op == Op1::Add1 {
                out.push(Instr::Add(rax, Operand::Imm(2)));
            } else {
                out.push(Instr::Sub(rax, Operand::Imm(2)));
            }
        },
        Op1::IsNum | Op1::IsBool => {
            out.push(Instr::Test(rax, Operand::Imm(1)));
            out.push(Instr::Mov(Operand::Reg(Reg::Rbx), Operand::Imm(1)));
            out.push(Instr::Mov(Operand::Reg(Reg::Rcx), Operand::Imm(3)));
            if op == Op1::IsNum {
                out.push(Instr::CMov(Cond::Z, Reg::Rax, Operand::Reg(Reg::Rcx)));
                out.push(Instr::CMov(Cond::NZ, Reg::Rax, Operand::Reg(Reg::Rbx)));
            } else {
                out.push(Instr::CMov(Cond::NZ, Reg::Rax, Operand::Reg(Reg::Rcx)));
                out.push(Instr::CMov(Cond::Z, Reg::Rax, Operand::Reg(Reg::Rbx)));
            }
        },
    }
    assert(out@ =~= unop_tail(op));
    out
}

/// Appends the guard that `rax` holds a number.
fn push_number_guard(out: &mut Vec<Instr>)
    ensures
        final(out)@ == old(out)@ + number_guard(),
{
    let ghost before = out@;
    out.push(Instr::Test(Operand::Reg(Reg::Rax), Operand::Imm(1)));
    out.push(Instr::J(Cond::NZ, Label::SnekError));
    assert(out@ =~= before + number_guard());
}

/// The code of a binary operator around the code of its operands.
fn binop_code(op: Op2, c1: Vec<Instr>, c2: Vec<Instr>, off: i32) -> (r: Vec<Instr>)
    ensures
        r@ == binop_text(op, c1@, c2@, Operand::Stack(off)),
{
    let rax = Operand::Reg(Reg::Rax);
    let rbx = Operand::Reg(Reg::Rbx);
    let slot = Operand::Stack(off);
    let mut first = c1;
    let mut second = c2;
    let ghost s1 = first@;
    let ghost s2 = second@;
    let mut out: Vec<Instr> = Vec::new();
    out.push(Instr::NewLine(15));
    out.append(&mut first);
    let mut save: Vec<Instr> = Vec::new();
    if op != Op2::Equal {
        push_number_guard(&mut save);
    }
    save.push(Instr::Mov(slot, rax));
    push_indented(&mut out, 15, &save);
    out.push(Instr::NewLine(15));
    out.append(&mut second);
    let mut tail: Vec<Instr> = Vec::new();
    if op == Op2::Equal {
        tail.push(Instr::Mov(rbx, rax));
        tail.push(Instr::Xor(rbx, slot));
        tail.push(Instr::Test(rbx, Operand::Imm(1)));
        tail.push(Instr::J(Cond::NZ, Label::SnekError));
        tail.push(Instr::Cmp(rax, slot));
        tail.push(Instr::Mov(rax, Operand::Imm(1)));
        tail.push(Instr::Mov(rbx, Operand::Imm(3)));
        tail.push(Instr::CMov(Cond::E, Reg::Rax, rbx));
        assert(tail@ =~= equal_tail(slot));
    } else {
        push_number_guard(&mut tail);
        let ghost mid = tail@;
        match op {
            Op2::Plus => {
                tail.push(Instr::Add(rax, slot));
                tail.push(Instr::J(Cond::O, Label::SnekError));
            },
            Op2::Minus => {
                tail.push(Instr::Mov(rbx, rax));
                tail.push(Instr::Mov(rax, slot));
                tail.push(Instr::Sub(rax, rbx));
                tail.push(Instr::J(Cond::O, Label::SnekError));
            },
            Op2::Times => {
                tail.push(Instr::Sar(Reg::Rax, 1));
                tail.push(Instr::IMul(Reg::Rax, slot));
                tail.push(Instr::J(Cond::O, Label::SnekError));
            },
            _ => {
                let cond = match op {
                    Op2::Greater => Cond::G,
                    Op2::GreaterEqual => Cond::GE,
                    Op2::Less => Cond::L,
                    _ => Cond::LE,
                };
                tail.push(Instr::Mov(rbx, rax));
                tail.push(Instr::Mov(rax, slot));
                tail.push(Instr::Cmp(rax, rbx));
                tail.push(Instr::Mov(rax, Operand::Imm(1)));
                tail.push(Instr::Mov(rbx, Operand::Imm(3)));
                tail.push(Instr::CMov(cond, Reg::Rax, rbx));
            },
        }
        assert(tail@ =~= number_guard() + binop_tail(op, slot));
    }
    push_indented(&mut out, 15, &tail);
    out.push(Instr::NewLine(12));
    if op == Op2::Equal {
        assert(save@ =~= seq![Instr::Mov(slot, rax)]);
    } else {
        assert(save@ =~= number_guard().push(Instr::Mov(slot, rax)));
    }
    assert(out@ =~= binop_text(op, s1, s2, slot));
    out
}


/// The code of an `if` numbered `n` around the code of its parts.
fn if_code(n: i32, ca: Vec<Instr>, ct: Vec<Instr>, cf: Vec<Instr>) -> (r: Vec<Instr>)
    ensures
        r@ == if_text(n, ca@, ct@, cf@),
{
    let rax = Operand::Reg(Reg::Rax);
    let (mut ca, mut ct, mut cf) = (ca, ct, cf);
    let ghost (sa, st, sf) = (ca@, ct@, cf@);
    let mut out: Vec<Instr> = Vec::new();
    out.push(Instr::NewLine(15));
    out.append(&mut ca);
    let test: Vec<Instr> = vec![Instr::Cmp(rax, Operand::Imm(1)), Instr::J(Cond::E, Label::IfElse(n))];
    assert(test@ =~= seq![Instr::Cmp(rax, Operand::Imm(1)), Instr::J(Cond::E, Label::IfElse(n))]);
    push_indented(&mut out, 15, &test);
    out.push(Instr::NewLine(15));
    out.append(&mut ct);
    let skip: Vec<Instr> = vec![Instr::Jmp(Label::IfEnd(n)), Instr::Mark(Label::IfElse(n))];
    assert(skip@ =~= seq![Instr::Jmp(Label::IfEnd(n)), Instr::Mark(Label::IfElse(n))]);
    push_indented(&mut out, 15, &skip);
    out.push(Instr::NewLine(15));
    out.append(&mut cf);
    let end: Vec<Instr> = vec![Instr::Mark(Label::IfEnd(n))];
    assert(end@ =~= seq![Instr::Mark(Label::IfEnd(n))]);
    push_indented(&mut out, 15, &end);
    out.push(Instr::NewLine(12));
    assert(out@ =~= if_text(n, sa, st, sf));
    out
}

/// The code of a `loop` numbered `n` around the code of its body.
fn loop_code(n: i32, cb: Vec<Instr>) -> (r: Vec<Instr>)
    ensures
        r@ == loop_text(n, cb@),
{
    let mut cb = cb;
    let ghost sb = cb@;
    let mut v: Vec<Instr> = Vec::new();
    let start: Vec<Instr> = vec![Instr::Mark(Label::LoopStart(n))];
    assert(start@ =~= seq![Instr::Mark(Label::LoopStart(n))]);
    push_indented(&mut v, 15, &start);
    v.push(Instr::NewLine(15));
    v.append(&mut cb);
    let back: Vec<Instr> = vec![Instr::Jmp(Label::LoopStart(n)), Instr::Mark(Label::LoopEnd(n))];
    assert(back@ =~= seq![Instr::Jmp(Label::LoopStart(n)), Instr::Mark(Label::LoopEnd(n))]);
    push_indented(&mut v, 15, &back);
    v.push(Instr::NewLine(12));
    assert(v@ =~= loop_text(n, sb));
    v
}

/// Compiles `e` to assembly text instructions that leave its value in `rax`.
/// `si` is the first free stack slot, `env` maps the names in scope to their
/// stack words, `break_target` is where a `break` jumps, and `counters` number
/// the `if` and `loop` labels. The code and errors are exactly `text_code`.
#[verifier::loop_isolation(false)]
pub fn compile_expr(
    e: &Expr,
    si: i32,
    env: &Env<i32>,
    break_target: Option<Label>,
    counters: &mut LabelCounters,
) -> (r: Result<Vec<Instr>, CompileError>)
    requires
        -268435456 <= si,
        si + expr_depth(e@) <= 268435455,
        old(counters).ifs + if_count(e@) <= i32::MAX,
        old(counters).loops + loop_count(e@) <= i32::MAX,
    ensures
        match text_code(e@, si as int, env@, break_target, *old(counters)) {
            Ok((code, c)) => r matches Ok(v) && v@ == code && *final(counters) == c,
            Err(x) => r matches Err(y) && y@ == x,
        },
        r is Ok ==> old(counters).ifs <= final(counters).ifs <= old(counters).ifs + if_count(e@),
        r is Ok ==> old(counters).loops <= final(counters).loops <= old(counters).loops + loop_count(
            e@,
        ),
    decreases e,
{
    let ghost c0 = *counters;
    let rax = Operand::Reg(Reg::Rax);
    match e {
        Expr::Number(n) => {
            if *n < -4611686018427387904 || *n > 4611686018427387903 {
                return Err(CompileError::NumberOverflow);
            }
            let mut v = Vec::new();
            v.push(Instr::Mov(rax, Operand::Imm(*n * 2)));
            Ok(v)
        },
        Expr::Boolean(b) => {
            let val: i64 = if *b { 3 } else { 1 };
            let mut v = Vec::new();
            v.push(Instr::Mov(rax, Operand::Imm(val)));
            Ok(v)
        },
        Expr::Id(name) => {
            let mut v = Vec::new();
            if crate::text::str_eq(name.as_str(), "input") {
                v.push(Instr::Mov(rax, Operand::Reg(Reg::Rdi)));
                Ok(v)
            } else {
                match env.get(name.as_str()) {
                    Some(off) => {
                        v.push(Instr::Mov(rax, Operand::Stack(off)));
                        Ok(v)
                    },
                    None => Err(CompileError::Unbound(name.clone())),
                }
            }
        },
        Expr::UnOp(op, sub) => {
            let mut v = match compile_expr(sub, si, env, break_target, counters) {
                Ok(v) => v,
                Err(x) => {
                    return Err(x);
                },
            };
            let tail = unop_tail_code(*op);
            push_indented(&mut v, 0, &tail);
            Ok(v)
        },
        Expr::BinOp(op, e1, e2) => {
            let c1 = match compile_expr(e1, si, env, break_target, counters) {
                Ok(v) => v,
                Err(x) => {
                    return Err(x);
                },
            };
            let c2 = match compile_expr(e2, si + 1, env, break_target, counters) {
                Ok(v) => v,
                Err(x) => {
                    return Err(x);
                },
            };
            Ok(binop_code(*op, c1, c2, si * 8))
        },
        Expr::If(cond, thn, els) => {
            counters.ifs = counters.ifs + 1;
            let n = counters.ifs;
            let v = match compile_expr(cond, si, env, break_target, counters) {
                Ok(v) => v,
                Err(x) => {
                    return Err(x);
                },
            };
            let ct = match compile_expr(thn, si, env, break_target, counters) {
                Ok(v) => v,
                Err(x) => {
                    return Err(x);
                },
            };
            let cf = match compile_expr(els, si, env, break_target, counters) {
                Ok(v) => v,
                Err(x) => {
                    return Err(x);
                },
            };
            Ok(if_code(n, v, ct, cf))
        },
        Expr::Loop(body) => {
            counters.loops = counters.loops + 1;
            let n = counters.loops;
            let cb = match compile_expr(body, si, env, Some(Label::LoopEnd(n)), counters) {
                Ok(v) => v,
                Err(x) => {
                    return Err(x);
                },
            };
            Ok(loop_code(n, cb))
        },
        Expr::Break(sub) => {
            match break_target {
                Some(label) => {
                    let mut v = match compile_expr(sub, si, env, break_target, counters) {
                        Ok(v) => v,
                        Err(x) => {
                            return Err(x);
                        },
                    };
                    let jump: Vec<Instr> = vec![Instr::Jmp(label)];
                    assert(jump@ =~= seq![Instr::Jmp(label)]);
                    push_indented(&mut v, 0, &jump);
                    Ok(v)
                },
                None => Err(CompileError::BreakOutsideLoop),
            }
        },
        Expr::Assign(name, sub) => {
            match env.get(name.as_str()) {
                None => Err(CompileError::Unbound(name.clone())),
                Some(off) => {
                    let mut v = match compile_expr(sub, si, env, break_target, counters) {
                        Ok(v) => v,
                        Err(x) => {
                            return Err(x);
                        },
                    };
                    let store: Vec<Instr> = vec![Instr::Mov(Operand::Stack(off), rax)];
                    assert(store@ =~= seq![Instr::Mov(Operand::Stack(off), rax)]);
                    push_indented(&mut v, 0, &store);
                    Ok(v)
                },
            }
        },
        Expr::Block(exprs) => {
            let ghost ev = exprs_view(exprs@);
            proof {
                lemma_exprs_view(exprs@);
                assert(decreases_to!(*e => (*e)->Block_0));
                assert forall|k: int| 0 <= k < exprs.len() implies decreases_to!(
                    *e => #[trigger] exprs[k]) by {
                    assert(decreases_to!(*exprs => exprs[k]));
                }
            }
            let mut v: Vec<Instr> = Vec::new();
            let mut i: usize = 0;
            assert(ev.take(0) =~= Seq::<ExprV>::empty());
            while i < exprs.len()
                invariant
                    i <= exprs@.len(),
                    ev.len() == exprs@.len(),
                    forall|k: int| 0 <= k < exprs@.len() ==> #[trigger] ev[k] == exprs@[k]@,
                    text_items(ev.take(i as int), si as int, env@, break_target, c0) == Ok::<
                        (Seq<Instr>, LabelCounters),
                        CompileErrorV,
                    >((v@, *counters)),
                    c0.ifs <= counters.ifs <= c0.ifs + exprs_node_count(ev.take(i as int), false),
                    c0.loops <= counters.loops <= c0.loops + exprs_node_count(ev.take(i as int), true),
                decreases exprs@.len() - i,
            {
                assert(ev.take(i + 1).drop_last() =~= ev.take(i as int));
                proof {
                    lemma_exprs_count_prefix(ev, i + 1, false);
                    lemma_exprs_count_prefix(ev, i + 1, true);
                    lemma_exprs_depth_at(ev, i as int);
                }
                let mut ci = match compile_expr(&exprs[i], si, env, break_target, counters) {
                    Ok(c) => c,
                    Err(x) => {
                        proof {
                            lemma_text_items_error_persists(
                                ev,
                                i + 1,
                                si as int,
                                env@,
                                break_target,
                                c0,
                            );
                        }
                        return Err(x);
                    },
                };
                let ghost (sp, sc) = (v@, ci@);
                if i > 0 {
                    v.push(Instr::NewLine(0));
                }
                v.append(&mut ci);
                assert(v@ =~= sp + item_break(i + 1) + sc);
                i = i + 1;
            }
            assert(ev.take(i as int) =~= ev);
            Ok(v)
        },
        Expr::Let(bindings_vec, body) => {
            let ghost bv = bindings_view(bindings_vec@);
            proof {
                lemma_bindings_view(bindings_vec@);
                assert(decreases_to!(*e => (*e)->Let_0));
                assert forall|k: int| 0 <= k < bindings_vec.len() implies decreases_to!(
                    *e => #[trigger] bindings_vec[k].1) by {
                    assert(decreases_to!(*bindings_vec => bindings_vec[k]));
                    assert(decreases_to!(bindings_vec[k] => bindings_vec[k].1));
                }
            }
            let mut new_env = env.copy();
            let mut instrs: Vec<Instr> = Vec::new();
            let mut current_si = si;
            let mut i: usize = 0;
            assert(bv.take(0) =~= Seq::<(Seq<char>, ExprV)>::empty());
            while i < bindings_vec.len()
                invariant
                    i <= bindings_vec@.len(),
                    bv.len() == bindings_vec@.len(),
                    forall|k: int|
                        0 <= k < bindings_vec@.len() ==> #[trigger] bv[k] == (
                            bindings_vec@[k].0@,
                            bindings_vec@[k].1@,
                        ),
                    current_si == si + i,
                    text_bindings(bv.take(i as int), si as int, env@, break_target, c0) == Ok::<
                        (Seq<Instr>, Map<Seq<char>, i32>, LabelCounters),
                        CompileErrorV,
                    >((instrs@, new_env@, *counters)),
                    c0.ifs <= counters.ifs <= c0.ifs + bindings_node_count(bv.take(i as int), false),
                    c0.loops <= counters.loops <= c0.loops + bindings_node_count(bv.take(i as int), true),
                decreases bindings_vec@.len() - i,
            {
                assert(bv.take(i + 1).drop_last() =~= bv.take(i as int));
                proof {
                    lemma_bindings_count_prefix(bv, i + 1, false);
                    lemma_bindings_count_prefix(bv, i + 1, true);
                    lemma_bindings_depth_at(bv, i as int);
                }
                let name = &bindings_vec[i].0;
                if is_keyword(name.as_str()) {
                    proof {
                        lemma_text_bindings_error_persists(
                            bv,
                            i + 1,
                            si as int,
                            env@,
                            break_target,
                            c0,
                        );
                    }
                    return Err(CompileError::KeywordAsIdentifier);
                }
                let mut ci = match compile_expr(
                    &bindings_vec[i].1,
                    current_si,
                    &new_env,
                    break_target,
                    counters,
                ) {
                    Ok(c) => c,
                    Err(x) => {
                        proof {
                            lemma_text_bindings_error_persists(
                                bv,
                                i + 1,
                                si as int,
                                env@,
                                break_target,
                                c0,
                            );
                        }
                        return Err(x);
                    },
                };
                let stack_offset = current_si * 8;
                let ghost (sp, sc) = (instrs@, ci@);
                instrs.push(Instr::NewLine(20));
                instrs.append(&mut ci);
                let store: Vec<Instr> = vec![Instr::Mov(Operand::Stack(stack_offset), rax)];
                assert(store@ =~= seq![Instr::Mov(Operand::Stack(stack_offset), rax)]);
                push_indented(&mut instrs, 20, &store);
                instrs.push(Instr::NewLine(16));
                assert(instrs@ =~= sp + binding_text(current_si as int, sc));
                new_env.insert(name.clone(), stack_offset);
                current_si = current_si + 1;
                i = i + 1;
            }
            assert(bv.take(i as int) =~= bv);
            let mut cbody = match compile_expr(body, current_si, &new_env, break_target, counters) {
                Ok(c) => c,
                Err(x) => {
                    return Err(x);
                },
            };
            instrs.append(&mut cbody);
            Ok(instrs)
        },
        Expr::Define(_, sub) => compile_expr(sub, si, env, break_target, counters),
    }
}


/// The assembly program around the code of an expression: the entry point
/// `our_code_starts_here`, the code and `ret`, on lines indented by 8 spaces.
pub open spec fn program_text(code: Seq<Instr>) -> Seq<char> {
    "\n        section .text\n        global our_code_starts_here\n        our_code_starts_here:\n        "@
        + code_text(code) + "\n        ret\n        "@
}

/// Compiles a program to assembly text: its expression from stack slot 2,
/// with no names in scope and no enclosing loop, inside `program_text`.
/// `counters` are the label counters of the whole process, which every
/// compilation in it continues, so that no two compilations share a label.
pub fn compile_program(e: &Expr, counters: &mut LabelCounters) -> (r: Result<String, CompileError>)
    requires
        expr_depth(e@) <= 268435453,
        old(counters).ifs + if_count(e@) <= i32::MAX,
        old(counters).loops + loop_count(e@) <= i32::MAX,
    ensures
        match text_code(e@, 2, Map::empty(), None, *old(counters)) {
            Ok((code, c)) => r matches Ok(t) && t@ == program_text(code) && *final(counters) == c,
            Err(x) => r matches Err(y) && y@ == x,
        },
{
    let env: Env<i32> = Env::new();
    let code = match compile_expr(e, 2, &env, None, counters) {
        Ok(c) => c,
        Err(x) => {
            return Err(x);
        },
    };
    let mut out = String::from_str(
        "\n        section .text\n        global our_code_starts_here\n        our_code_starts_here:\n        ",
    );
    let lines = render_text(&code);
    out.append(lines.as_str());
    out.append("\n        ret\n        ");
    Ok(out)
}

} // verus!
