use vstd::prelude::*;
use crate::ast::{
    Expr, ExprV, Op1, Op2, bindings_view, exprs_view, lemma_bindings_view, lemma_exprs_view,
};
use crate::env::Env;
use crate::text::str_eq;
use crate::compile::{
    CompileError, CompileErrorV, expr_size, bindings_size, exprs_size, expr_depth,
    lemma_bindings_depth_at, lemma_exprs_depth_at, lemma_bindings_size_prefix,
    lemma_bindings_size_len, lemma_exprs_size_prefix,
};
use crate::textgen::{rax, slot, comparison_cond};
use crate::x86::{Cond, Instr, Label, Operand, Reg};

verus! {

/// What the prompt knows of a defined variable: its value, or, for a variable
/// that some `set!` may change, the address of the heap cell that holds it.
#[derive(Clone, Copy, PartialEq, Eq, Structural, Debug)]
pub enum DefineValue {
    Known(i64),
    Unknown(i64),
}

/// The type an expression is known to have before it runs: `Some(false)` a
/// number, `Some(true)` a boolean, `None` unknown. Only literals and defined
/// variables with a known value have a known type; `input` and the stack
/// variables of `env`, which shadow defined variables of the same name, are
/// unknown until the code runs.
pub open spec fn static_type(
    e: ExprV,
    env: Map<Seq<char>, i32>,
    denv: Map<Seq<char>, DefineValue>,
) -> Option<bool> {
    match e {
        ExprV::Number(_) => Some(false),
        ExprV::Boolean(_) => Some(true),
        ExprV::Id(x) => if x == "input"@ || env.contains_key(x) {
            None
        } else if denv.contains_key(x) && denv[x] is Known {
            Some((denv[x]->Known_0 & 1) == 1)
        } else {
            None
        },
        _ => None,
    }
}

/// The code that jumps past an error exit to `ok`; the exit ends the process
/// with status 1.
pub open spec fn exit_tail(err: Label, ok: Label) -> Seq<Instr> {
    seq![
        Instr::Jmp(ok),
        Instr::Mark(err),
        Instr::Mov(Operand::Reg(Reg::Rdi), Operand::Imm(1)),
        Instr::Mov(rax(), Operand::Imm(60)),
        Instr::Syscall,
        Instr::Mark(ok),
    ]
}

/// Jump to `err` unless `rax` holds a number.
pub open spec fn guard_to(err: Label) -> Seq<Instr> {
    seq![Instr::Test(rax(), Operand::Imm(1)), Instr::J(Cond::NZ, err)]
}

/// The tail of a unary operator, the operand being in `rax`; `si` is the
/// first free stack slot and `next` the first free label number.
pub open spec fn jit_unop_tail(op: Op1, si: int, next: nat) -> Seq<Instr> {
    let err = Label::Dynamic(next as u64);
    let ok = Label::Dynamic((next + 1) as u64);
    match op {
        Op1::Add1 => guard_to(err).push(Instr::Add(rax(), Operand::Imm(2))) + exit_tail(err, ok),
        Op1::Sub1 => guard_to(err).push(Instr::Sub(rax(), Operand::Imm(2))) + exit_tail(err, ok),
        Op1::IsNum => seq![
            Instr::Test(rax(), Operand::Imm(1)),
            Instr::Mov(rax(), Operand::Imm(1)),
            Instr::Mov(slot(si), Operand::Imm(3)),
            Instr::CMov(Cond::Z, Reg::Rax, slot(si)),
        ],
        Op1::IsBool => seq![
            Instr::Test(rax(), Operand::Imm(1)),
            Instr::Mov(rax(), Operand::Imm(1)),
            Instr::Mov(slot(si), Operand::Imm(3)),
            Instr::CMov(Cond::NZ, Reg::Rax, slot(si)),
        ],
    }
}

/// The labels a unary operator takes.
pub open spec fn unop_labels(op: Op1) -> nat {
    match op {
        Op1::Add1 | Op1::Sub1 => 2,
        _ => 0,
    }
}

/// What an arithmetic or ordering operator does after its second operand,
/// which is in `rax`, its first being in slot `si`.
pub open spec fn jit_binop_tail(op: Op2, si: int) -> Seq<Instr> {
    match op {
        Op2::Plus => seq![Instr::Add(rax(), slot(si))],
        Op2::Minus => seq![
            Instr::Mov(slot(si + 1), rax()),
            Instr::Mov(rax(), slot(si)),
            Instr::Sub(rax(), slot(si + 1)),
        ],
        Op2::Times => seq![Instr::Sar(Reg::Rax, 1), Instr::IMul(Reg::Rax, slot(si))],
        _ => seq![
            Instr::Mov(slot(si + 1), rax()),
            Instr::Mov(rax(), slot(si)),
            Instr::Cmp(rax(), slot(si + 1)),
            Instr::Mov(rax(), Operand::Imm(1)),
            Instr::Mov(slot(si), Operand::Imm(3)),
            Instr::CMov(comparison_cond(op), Reg::Rax, slot(si)),
        ],
    }
}

/// The code of an equality test of the value in slot `si` and the one in
/// `rax`, with error label `err` and continuation label `ok`.
pub open spec fn jit_equal_tail(si: int, err: Label, ok: Label) -> Seq<Instr> {
    seq![
        Instr::Mov(slot(si + 1), rax()),
        Instr::Xor(rax(), slot(si)),
        Instr::Test(rax(), Operand::Imm(1)),
        Instr::J(Cond::NZ, err),
        Instr::Mov(rax(), slot(si + 1)),
        Instr::Cmp(rax(), slot(si)),
        Instr::Mov(rax(), Operand::Imm(1)),
        Instr::Mov(slot(si), Operand::Imm(3)),
        Instr::CMov(Cond::E, Reg::Rax, slot(si)),
    ] + exit_tail(err, ok)
}

/// Whether the known types of a binary operator's operands refuse it before
/// it runs: any known boolean, except for equality, which refuses two known
/// types that differ.
pub open spec fn binop_refused(
    op: Op2,
    a: ExprV,
    b: ExprV,
    env: Map<Seq<char>, i32>,
    denv: Map<Seq<char>, DefineValue>,
) -> bool {
    if op == Op2::Equal {
        static_type(a, env, denv) is Some && static_type(b, env, denv) is Some && static_type(
            a,
            env,
            denv,
        ) != static_type(b, env, denv)
    } else {
        static_type(a, env, denv) == Some(true) || static_type(b, env, denv) == Some(true)
    }
}

/// The instruction-list compilation of `e` for the in-memory assembler: the
/// code, which leaves the value in `rax`, and the first label number it left
/// free. `si` is the first free stack slot, `env` maps names to stack words,
/// `denv` holds the variables defined at the prompt, `brk` is the label a
/// `break` jumps to, `next` the first free label number.
pub open spec fn jit_code(
    e: ExprV,
    si: int,
    env: Map<Seq<char>, i32>,
    denv: Map<Seq<char>, DefineValue>,
    brk: Option<Label>,
    next: nat,
) -> Result<(Seq<Instr>, nat), CompileErrorV>
    decreases e,
{
    match e {
        ExprV::Number(n) => Ok((seq![Instr::Mov(rax(), Operand::Imm(n.wrapping_shl(1)))], next)),
        ExprV::Boolean(b) => Ok(
            (seq![Instr::Mov(rax(), Operand::Imm(if b { 3 } else { 1 }))], next),
        ),
        ExprV::Id(x) => if x == "input"@ {
            Ok((seq![Instr::Mov(rax(), Operand::Reg(Reg::Rdi))], next))
        } else if env.contains_key(x) {
            Ok((seq![Instr::Mov(rax(), Operand::Stack(env[x]))], next))
        } else if denv.contains_key(x) {
            match denv[x] {
                DefineValue::Known(v) => Ok((seq![Instr::Mov(rax(), Operand::Imm(v))], next)),
                DefineValue::Unknown(p) => Ok(
                    (
                        seq![
                            Instr::Mov(rax(), Operand::Imm(p)),
                            Instr::Mov(rax(), Operand::Deref(Reg::Rax)),
                        ],
                        next,
                    ),
                ),
            }
        } else {
            Err(CompileErrorV::Unbound(x))
        },
        ExprV::UnOp(op, a) => if (op == Op1::Add1 || op == Op1::Sub1) && static_type(*a, env, denv)
            == Some(true) {
            Err(CompileErrorV::InvalidArgument)
        } else {
            match jit_code(*a, si, env, denv, brk, next) {
                Err(x) => Err(x),
                Ok((ca, n1)) => Ok((ca + jit_unop_tail(op, si, n1), n1 + unop_labels(op))),
            }
        },
        ExprV::BinOp(op, a, b) => if binop_refused(op, *a, *b, env, denv) {
            Err(CompileErrorV::InvalidArgument)
        } else {
            match jit_code(*a, si, env, denv, brk, next) {
                Err(x) => Err(x),
                Ok((ca, n1)) => if op == Op2::Equal {
                    match jit_code(*b, si + 1, env, denv, brk, n1) {
                        Err(x) => Err(x),
                        Ok((cb, n2)) => Ok(
                            (
                                ca + seq![Instr::Mov(slot(si), rax())] + cb + jit_equal_tail(
                                    si,
                                    Label::Dynamic(n2 as u64),
                                    Label::Dynamic((n2 + 1) as u64),
                                ),
                                n2 + 2,
                            ),
                        ),
                    }
                } else {
                    let err = Label::Dynamic(n1 as u64);
                    match jit_code(*b, si + 1, env, denv, brk, n1 + 1) {
                        Err(x) => Err(x),
                        Ok((cb, n2)) => Ok(
                            (
                                ca + guard_to(err).push(Instr::Mov(slot(si), rax())) + cb
                                    + guard_to(err) + jit_binop_tail(op, si) + exit_tail(
                                    err,
                                    Label::Dynamic(n2 as u64),
                                ),
                                n2 + 1,
                            ),
                        ),
                    }
                },
            }
        },
        ExprV::If(a, t, f) => match jit_code(*a, si, env, denv, brk, next) {
            Err(x) => Err(x),
            Ok((ca, n1)) => {
                let fl = Label::Dynamic(n1 as u64);
                let done = Label::Dynamic((n1 + 1) as u64);
                match jit_code(*t, si, env, denv, brk, n1 + 2) {
                    Err(x) => Err(x),
                    Ok((ct, n2)) => match jit_code(*f, si, env, denv, brk, n2) {
                        Err(x) => Err(x),
                        Ok((cf, n3)) => Ok(
                            (
                                ca + seq![
                                    Instr::Cmp(rax(), Operand::Imm(1)),
                                    Instr::J(Cond::E, fl),
                                ] + ct + seq![Instr::Jmp(done), Instr::Mark(fl)] + cf + seq![
                                    Instr::Mark(done),
                                ],
                                n3,
                            ),
                        ),
                    },
                }
            },
        },
        ExprV::Loop(b) => {
            let start = Label::Dynamic(next as u64);
            let end = Label::Dynamic((next + 1) as u64);
            match jit_code(*b, si, env, denv, Some(end), next + 2) {
                Err(x) => Err(x),
                Ok((cb, n1)) => Ok(
                    (
                        seq![Instr::Mark(start)] + cb + seq![Instr::Jmp(start), Instr::Mark(end)],
                        n1,
                    ),
                ),
            }
        },
        ExprV::Break(a) => match jit_code(*a, si, env, denv, brk, next) {
            Err(x) => Err(x),
            Ok((ca, n1)) => match brk {
                Some(l) => Ok((ca.push(Instr::Jmp(l)), n1)),
                None => Err(CompileErrorV::BreakOutsideLoop),
            },
        },
        ExprV::Assign(x, a) => match jit_code(*a, si, env, denv, brk, next) {
            Err(err) => Err(err),
            Ok((ca, n1)) => if env.contains_key(x) {
                Ok((ca.push(Instr::Mov(Operand::Stack(env[x]), rax())), n1))
            } else if denv.contains_key(x) {
                match denv[x] {
                    DefineValue::Unknown(p) => Ok(
                        (
                            ca + seq![
                                Instr::Mov(Operand::Reg(Reg::Rcx), Operand::Imm(p)),
                                Instr::Mov(Operand::Deref(Reg::Rcx), rax()),
                            ],
                            n1,
                        ),
                    ),
                    DefineValue::Known(_) => Err(CompileErrorV::ImmutableDefine),
                }
            } else {
                Err(CompileErrorV::Unbound(x))
            },
        },
        ExprV::Block(es) => jit_items(es, si, env, denv, brk, next),
        ExprV::Let(bs, body) => match jit_bindings(bs, si, env, denv, brk, next) {
            Err(x) => Err(x),
            Ok((cb, env2, n1)) => match jit_code(*body, si + bs.len(), env2, denv, brk, n1) {
                Err(x) => Err(x),
                Ok((cbody, n2)) => Ok((cb + cbody, n2)),
            },
        },
        ExprV::Define(_, a) => jit_code(*a, si, env, denv, brk, next),
    }
}

/// The code of a block's expressions, one after another.
pub open spec fn jit_items(
    es: Seq<ExprV>,
    si: int,
    env: Map<Seq<char>, i32>,
    denv: Map<Seq<char>, DefineValue>,
    brk: Option<Label>,
    next: nat,
) -> Result<(Seq<Instr>, nat), CompileErrorV>
    decreases es,
{
    if es.len() == 0 {
        Ok((Seq::empty(), next))
    } else {
        match jit_items(es.drop_last(), si, env, denv, brk, next) {
            Err(x) => Err(x),
            Ok((cp, n1)) => match jit_code(es.last(), si, env, denv, brk, n1) {
                Err(x) => Err(x),
                Ok((cl, n2)) => Ok((cp + cl, n2)),
            },
        }
    }
}

/// The code of a `let`'s bindings, each evaluated in the slot after the
/// previous one and stored there, with the map that names them.
pub open spec fn jit_bindings(
    bs: Seq<(Seq<char>, ExprV)>,
    si: int,
    env: Map<Seq<char>, i32>,
    denv: Map<Seq<char>, DefineValue>,
    brk: Option<Label>,
    next: nat,
) -> Result<(Seq<Instr>, Map<Seq<char>, i32>, nat), CompileErrorV>
    decreases bs,
{
    if bs.len() == 0 {
        Ok((Seq::empty(), env, next))
    } else {
        match jit_bindings(bs.drop_last(), si, env, denv, brk, next) {
            Err(x) => Err(x),
            Ok((cp, env1, n1)) => {
                let cur = si + bs.len() - 1;
                match jit_code(bs.last().1, cur, env1, denv, brk, n1) {
                    Err(x) => Err(x),
                    Ok((cl, n2)) => Ok(
                        (
                            cp + cl + seq![Instr::Mov(slot(cur), rax())],
                            env1.insert(bs.last().0, (cur * 8) as i32),
                            n2,
                        ),
                    ),
                }
            },
        }
    }
}


/// The instruction buffer of the in-memory assembler, with its label
/// allocator.
pub struct Assembler {
    pub code: Vec<Instr>,
    pub next_label: u64,
}

impl Assembler {
    /// An empty buffer whose first label is number 0.
    pub fn new() -> (r: Self)
        ensures
            r.code@ == Seq::<Instr>::empty(),
            r.next_label == 0,
    {
        Assembler { code: Vec::new(), next_label: 0 }
    }

    /// A fresh label.
    pub fn new_dynamic_label(&mut self) -> (l: Label)
        requires
            old(self).next_label < u64::MAX,
        ensures
            l == Label::Dynamic(old(self).next_label),
            final(self).next_label == old(self).next_label + 1,
            final(self).code == old(self).code,
    {
        let l = Label::Dynamic(self.next_label);
        self.next_label = self.next_label + 1;
        l
    }

    /// Appends one instruction.
    pub fn emit(&mut self, i: Instr)
        ensures
            final(self).code@ == old(self).code@.push(i),
            final(self).next_label == old(self).next_label,
    {
        self.code.push(i);
    }

    /// Appends the jump past an error exit to `ok`, the exit itself, and `ok`.
    fn emit_exit(&mut self, err: Label, ok: Label)
        ensures
            final(self).code@ == old(self).code@ + exit_tail(err, ok),
            final(self).next_label == old(self).next_label,
    {
        let ghost before = self.code@;
        self.emit(Instr::Jmp(ok));
        self.emit(Instr::Mark(err));
        self.emit(Instr::Mov(Operand::Reg(Reg::Rdi), Operand::Imm(1)));
        self.emit(Instr::Mov(Operand::Reg(Reg::Rax), Operand::Imm(60)));
        self.emit(Instr::Syscall);
        self.emit(Instr::Mark(ok));
        assert(self.code@ =~= before + exit_tail(err, ok));
    }

    /// Appends the jump to `err` unless `rax` holds a number.
    fn emit_guard(&mut self, err: Label)
        ensures
            final(self).code@ == old(self).code@ + guard_to(err),
            final(self).next_label == old(self).next_label,
    {
        let ghost before = self.code@;
        self.emit(Instr::Test(Operand::Reg(Reg::Rax), Operand::Imm(1)));
        self.emit(Instr::J(Cond::NZ, err));
        assert(self.code@ =~= before + guard_to(err));
    }
}

/// The type an expression is known to have before it runs: `Some(false)` a
/// number, `Some(true)` a boolean, `None` unknown; a stack variable of `env`
/// is unknown, and shadows a defined variable of the same name.
pub fn get_static_type(e: &Expr, env: &Env<i32>, define_env: &Env<DefineValue>) -> (r: Option<bool>)
    ensures
        r == static_type(e@, env@, define_env@),
{
    match e {
        Expr::Number(_) => Some(false),
        Expr::Boolean(_) => Some(true),
        Expr::Id(name) => {
            if str_eq(name.as_str(), "input") || env.contains_key(name.as_str()) {
                None
            } else {
                match define_env.get(name.as_str()) {
                    Some(DefineValue::Known(val)) => Some((val & 1) == 1),
                    _ => None,
                }
            }
        },
        _ => None,
    }
}


proof fn lemma_jit_items_error_persists(
    es: Seq<ExprV>,
    k: int,
    si: int,
    env: Map<Seq<char>, i32>,
    denv: Map<Seq<char>, DefineValue>,
    brk: Option<Label>,
    next: nat,
)
    requires
        0 <= k <= es.len(),
        jit_items(es.take(k), si, env, denv, brk, next) is Err,
    ensures
        jit_items(es, si, env, denv, brk, next) == jit_items(es.take(k), si, env, denv, brk, next),
{
    let f = |t: Seq<ExprV>| jit_items(t, si, env, denv, brk, next);
    let failed = |r: Result<(Seq<Instr>, nat), CompileErrorV>| r is Err;
    assert forall|t: Seq<ExprV>| 0 < t.len() && #[trigger] failed(f(t.drop_last())) implies f(t) == f(
        t.drop_last(),
    ) by {}
    crate::prefix::lemma_failure_persists(f, failed, es, k);
}

proof fn lemma_jit_bindings_error_persists(
    bs: Seq<(Seq<char>, ExprV)>,
    k: int,
    si: int,
    env: Map<Seq<char>, i32>,
    denv: Map<Seq<char>, DefineValue>,
    brk: Option<Label>,
    next: nat,
)
    requires
        0 <= k <= bs.len(),
        jit_bindings(bs.take(k), si, env, denv, brk, next) is Err,
    ensures
        jit_bindings(bs, si, env, denv, brk, next) == jit_bindings(
            bs.take(k),
            si,
            env,
            denv,
            brk,
            next,
        ),
{
    let f = |t: Seq<(Seq<char>, ExprV)>| jit_bindings(t, si, env, denv, brk, next);
    let failed = |r: Result<(Seq<Instr>, Map<Seq<char>, i32>, nat), CompileErrorV>| r is Err;
    assert forall|t: Seq<(Seq<char>, ExprV)>| 0 < t.len() && #[trigger] failed(f(t.drop_last())) implies f(t) == f(
        t.drop_last(),
    ) by {}
    crate::prefix::lemma_failure_persists(f, failed, bs, k);
}

/// The case of an equality test of `compile_ops`, its operands' known types
/// not refusing it.
fn compile_equal(
    e: &Expr,
    ops: &mut Assembler,
    si: i32,
    env: &Env<i32>,
    define_env: &Env<DefineValue>,
    break_label: Option<Label>,
) -> (r: Result<(), CompileError>)
    requires
        e is BinOp,
        e->BinOp_0 == Op2::Equal,
        !binop_refused(e->BinOp_0, (*e->BinOp_1)@, (*e->BinOp_2)@, env@, define_env@),
        -268435456 <= si,
        si + expr_depth(e@) <= 268435455,
        old(ops).next_label + 2 * expr_size(e@) <= u64::MAX,
    ensures
        match jit_code(e@, si as int, env@, define_env@, break_label, old(ops).next_label as nat) {
            Ok((code, n)) => r is Ok && final(ops).code@ == old(ops).code@ + code
                && final(ops).next_label == n,
            Err(x) => r matches Err(y) && y@ == x,
        },
        r is Ok ==> old(ops).next_label <= final(ops).next_label <= old(ops).next_label + 2
            * expr_size(e@),
    decreases e, 0int,
{
    let ghost n0 = ops.next_label;
    let ghost code0 = ops.code@;
    let rax = Operand::Reg(Reg::Rax);
    match e {
        Expr::BinOp(op, e1, e2) => {
            match compile_ops(e1, ops, si, env, define_env, break_label) {
                Ok(()) => {},
                Err(x) => {
                    return Err(x);
                },
            }
            let stack_offset = si * 8;
            let stack_offset2 = (si + 1) * 8;
            let slot1 = Operand::Stack(stack_offset);
            let slot2 = Operand::Stack(stack_offset2);
            let ghost ca = ops.code@.subrange(code0.len() as int, ops.code@.len() as int);
            assert(ops.code@ =~= code0 + ca);
            ops.emit(Instr::Mov(slot1, rax));
            let ghost before2 = ops.code@;
            match compile_ops(e2, ops, si + 1, env, define_env, break_label) {
                Ok(()) => {},
                Err(x) => {
                    return Err(x);
                },
            }
            let ghost cb = ops.code@.subrange(before2.len() as int, ops.code@.len() as int);
            assert(ops.code@ =~= before2 + cb);
            let ghost mid = ops.code@;
            let error_label = ops.new_dynamic_label();
            let ok_label = ops.new_dynamic_label();
            ops.emit(Instr::Mov(slot2, rax));
            ops.emit(Instr::Xor(rax, slot1));
            ops.emit(Instr::Test(rax, Operand::Imm(1)));
            ops.emit(Instr::J(Cond::NZ, error_label));
            ops.emit(Instr::Mov(rax, slot2));
            ops.emit(Instr::Cmp(rax, slot1));
            ops.emit(Instr::Mov(rax, Operand::Imm(1)));
            ops.emit(Instr::Mov(slot1, Operand::Imm(3)));
            ops.emit(Instr::CMov(Cond::E, Reg::Rax, slot1));
            ops.emit_exit(error_label, ok_label);
            assert(ops.code@ =~= mid + jit_equal_tail(si as int, error_label, ok_label));
            assert(ops.code@ =~= code0 + ca + seq![Instr::Mov(slot(si as int), rax)] + cb
                + jit_equal_tail(si as int, error_label, ok_label));
            return Ok(());
        },
        _ => Ok(()),
    }
}

/// The case of an arithmetic or ordering operator of `compile_ops`, its
/// operands' known types not refusing it.
fn compile_arith(
    e: &Expr,
    ops: &mut Assembler,
    si: i32,
    env: &Env<i32>,
    define_env: &Env<DefineValue>,
    break_label: Option<Label>,
) -> (r: Result<(), CompileError>)
    requires
        e is BinOp,
        e->BinOp_0 != Op2::Equal,
        !binop_refused(e->BinOp_0, (*e->BinOp_1)@, (*e->BinOp_2)@, env@, define_env@),
        -268435456 <= si,
        si + expr_depth(e@) <= 268435455,
        old(ops).next_label + 2 * expr_size(e@) <= u64::MAX,
    ensures
        match jit_code(e@, si as int, env@, define_env@, break_label, old(ops).next_label as nat) {
            Ok((code, n)) => r is Ok && final(ops).code@ == old(ops).code@ + code
                && final(ops).next_label == n,
            Err(x) => r matches Err(y) && y@ == x,
        },
        r is Ok ==> old(ops).next_label <= final(ops).next_label <= old(ops).next_label + 2
            * expr_size(e@),
    decreases e, 0int,
{
    let ghost n0 = ops.next_label;
    let ghost code0 = ops.code@;
    let rax = Operand::Reg(Reg::Rax);
    match e {
        Expr::BinOp(op, e1, e2) => {
            match compile_ops(e1, ops, si, env, define_env, break_label) {
                Ok(()) => {},
                Err(x) => {
                    return Err(x);
                },
            }
            let stack_offset = si * 8;
            let stack_offset2 = (si + 1) * 8;
            let slot1 = Operand::Stack(stack_offset);
            let slot2 = Operand::Stack(stack_offset2);
            let ghost ca = ops.code@.subrange(code0.len() as int, ops.code@.len() as int);
            assert(ops.code@ =~= code0 + ca);
            let error_label = ops.new_dynamic_label();
            ops.emit_guard(error_label);
            ops.emit(Instr::Mov(slot1, rax));
            let ghost before2 = ops.code@;
            match compile_ops(e2, ops, si + 1, env, define_env, break_label) {
                Ok(()) => {},
                Err(x) => {
                    return Err(x);
                },
            }
            let ghost cb = ops.code@.subrange(before2.len() as int, ops.code@.len() as int);
            assert(ops.code@ =~= before2 + cb);
            let ghost mid = ops.code@;
            ops.emit_guard(error_label);
            let ghost mid2 = ops.code@;
            match op {
                Op2::Plus => {
                    ops.emit(Instr::Add(rax, slot1));
                },
                Op2::Minus => {
                    ops.emit(Instr::Mov(slot2, rax));
                    ops.emit(Instr::Mov(rax, slot1));
                    ops.emit(Instr::Sub(rax, slot2));
                },
                Op2::Times => {
                    ops.emit(Instr::Sar(Reg::Rax, 1));
                    ops.emit(Instr::IMul(Reg::Rax, slot1));
                },
                _ => {
                    let cond = match op {
                        Op2::Greater => Cond::G,
                        Op2::GreaterEqual => Cond::GE,
                        Op2::Less => Cond::L,
                        _ => Cond::LE,
                    };
                    ops.emit(Instr::Mov(slot2, rax));
                    ops.emit(Instr::Mov(rax, slot1));
                    ops.emit(Instr::Cmp(rax, slot2));
                    ops.emit(Instr::Mov(rax, Operand::Imm(1)));
                    ops.emit(Instr::Mov(slot1, Operand::Imm(3)));
                    ops.emit(Instr::CMov(cond, Reg::Rax, slot1));
                },
            }
            assert(ops.code@ =~= mid2 + jit_binop_tail(*op, si as int));
            let ghost mid3 = ops.code@;
            let ok_label = ops.new_dynamic_label();
            ops.emit_exit(error_label, ok_label);
            assert(ops.code@ =~= code0 + ca + guard_to(error_label).push(
                Instr::Mov(slot(si as int), rax),
            ) + cb + guard_to(error_label) + jit_binop_tail(*op, si as int) + exit_tail(
                error_label,
                ok_label,
            ));
            Ok(())
        },
        _ => Ok(()),
    }
}

/// The case of a binary operator of `compile_ops`.
fn compile_binop(
    e: &Expr,
    ops: &mut Assembler,
    si: i32,
    env: &Env<i32>,
    define_env: &Env<DefineValue>,
    break_label: Option<Label>,
) -> (r: Result<(), CompileError>)
    requires
        e is BinOp,
        -268435456 <= si,
        si + expr_depth(e@) <= 268435455,
        old(ops).next_label + 2 * expr_size(e@) <= u64::MAX,
    ensures
        match jit_code(e@, si as int, env@, define_env@, break_label, old(ops).next_label as nat) {
            Ok((code, n)) => r is Ok && final(ops).code@ == old(ops).code@ + code
                && final(ops).next_label == n,
            Err(x) => r matches Err(y) && y@ == x,
        },
        r is Ok ==> old(ops).next_label <= final(ops).next_label <= old(ops).next_label + 2
            * expr_size(e@),
    decreases e, 1int,
{
    match e {
        Expr::BinOp(op, e1, e2) => {
            let t1 = get_static_type(e1, env, define_env);
            let t2 = get_static_type(e2, env, define_env);
            if *op == Op2::Equal {
                if let (Some(a), Some(b)) = (t1, t2) {
                    if a != b {
                        return Err(CompileError::InvalidArgument);
                    }
                }
            } else {
                if let Some(true) = t1 {
                    return Err(CompileError::InvalidArgument);
                }
                if let Some(true) = t2 {
                    return Err(CompileError::InvalidArgument);
                }
            }
            if *op == Op2::Equal {
                compile_equal(e, ops, si, env, define_env, break_label)
            } else {
                compile_arith(e, ops, si, env, define_env, break_label)
            }
        },
        _ => Ok(()),
    }
}

/// The case of a `let` of `compile_ops`.
#[verifier::loop_isolation(false)]
fn compile_let(
    e: &Expr,
    ops: &mut Assembler,
    si: i32,
    env: &Env<i32>,
    define_env: &Env<DefineValue>,
    break_label: Option<Label>,
) -> (r: Result<(), CompileError>)
    requires
        e is Let,
        -268435456 <= si,
        si + expr_depth(e@) <= 268435455,
        old(ops).next_label + 2 * expr_size(e@) <= u64::MAX,
    ensures
        match jit_code(e@, si as int, env@, define_env@, break_label, old(ops).next_label as nat) {
            Ok((code, n)) => r is Ok && final(ops).code@ == old(ops).code@ + code
                && final(ops).next_label == n,
            Err(x) => r matches Err(y) && y@ == x,
        },
        r is Ok ==> old(ops).next_label <= final(ops).next_label <= old(ops).next_label + 2
            * expr_size(e@),
    decreases e, 0int,
{
    let ghost n0 = ops.next_label;
    let ghost code0 = ops.code@;
    let rax = Operand::Reg(Reg::Rax);
    match e {
        Expr::Let(bindings_vec, body) => {
            let ghost bv = bindings_view(bindings_vec@);
            proof {
                lemma_bindings_view(bindings_vec@);
                assert(decreases_to!(*e => (*e)->Let_0));
                assert forall|k: int| 0 <= k < bindings_vec.len() implies decreases_to!(
                    *e => #[trigger] bindings_vec[k].1) by {
                    assert(decreases_to!(*bindings_vec => bindings_vec[k]));
                    assert(decreases_to!(bindings_vec[k] => bindings_vec[k].1));
                }
                lemma_bindings_size_len(bv);
            }
            let mut new_env = env.copy();
            let mut current_si = si;
            let mut i: usize = 0;
            assert(bv.take(0) =~= Seq::<(Seq<char>, ExprV)>::empty());
            assert(ops.code@ =~= code0 + Seq::<Instr>::empty());
            let ghost mut gcode: Seq<Instr> = Seq::empty();
            while i < bindings_vec.len()
                invariant
                    i <= bindings_vec@.len(),
                    bv.len() == bindings_vec@.len(),
                    forall|k: int|
                        0 <= k < bindings_vec@.len() ==> #[trigger] bv[k] == (
                            bindings_vec@[k].0@,
                            bindings_vec@[k].1@,
                        ),
                    current_si == si + i,
                    ops.code@ == code0 + gcode,
                    jit_bindings(
                        bv.take(i as int),
                        si as int,
                        env@,
                        define_env@,
                        break_label,
                        n0 as nat,
                    ) == Ok::<(Seq<Instr>, Map<Seq<char>, i32>, nat), CompileErrorV>(
                        (gcode, new_env@, ops.next_label as nat),
                    ),
                    n0 <= ops.next_label <= n0 + 2 * bindings_size(bv.take(i as int)),
                decreases bindings_vec@.len() - i,
            {
                assert(bv.take(i + 1).drop_last() =~= bv.take(i as int));
                assert(bv.take(i + 1).last() == bv[i as int]);
                proof {
                    lemma_bindings_size_prefix(bv, i as int);
                    lemma_bindings_size_prefix(bv, i + 1);
                    lemma_bindings_depth_at(bv, i as int);
                }
                let ghost cp = gcode;
                let ghost before = ops.code@;
                let ghost nb = ops.next_label as nat;
                match compile_ops(
                    &bindings_vec[i].1,
                    ops,
                    current_si,
                    &new_env,
                    define_env,
                    break_label,
                ) {
                    Ok(()) => {},
                    Err(x) => {
                        proof {
                            lemma_jit_bindings_error_persists(
                                bv,
                                i + 1,
                                si as int,
                                env@,
                                define_env@,
                                break_label,
                                n0 as nat,
                            );
                        }
                        return Err(x);
                    },
                }
                let ghost cl = jit_code(
                    bv[i as int].1,
                    current_si as int,
                    new_env@,
                    define_env@,
                    break_label,
                    nb,
                )->Ok_0.0;
                let stack_offset = current_si * 8;
                ops.emit(Instr::Mov(Operand::Stack(stack_offset), rax));
                new_env.insert(bindings_vec[i].0.clone(), stack_offset);
                assert(ops.code@ =~= code0 + (cp + cl + seq![Instr::Mov(slot(current_si as int), rax)]));
                proof {
                    gcode = cp + cl + seq![Instr::Mov(slot(current_si as int), rax)];
                }
                current_si = current_si + 1;
                i = i + 1;
            }
            assert(bv.take(i as int) =~= bv);
            let ghost cbs = gcode;
            let ghost before = ops.code@;
            match compile_ops(body, ops, current_si, &new_env, define_env, break_label) {
                Ok(()) => {},
                Err(x) => {
                    return Err(x);
                },
            }
            let ghost cbody = ops.code@.subrange(before.len() as int, ops.code@.len() as int);
            assert(ops.code@ =~= code0 + (cbs + cbody));
            Ok(())
        },
        _ => Ok(()),
    }
}

/// The case of a block of `compile_ops`.
#[verifier::loop_isolation(false)]
fn compile_block(
    e: &Expr,
    ops: &mut Assembler,
    si: i32,
    env: &Env<i32>,
    define_env: &Env<DefineValue>,
    break_label: Option<Label>,
) -> (r: Result<(), CompileError>)
    requires
        e is Block,
        -268435456 <= si,
        si + expr_depth(e@) <= 268435455,
        old(ops).next_label + 2 * expr_size(e@) <= u64::MAX,
    ensures
        match jit_code(e@, si as int, env@, define_env@, break_label, old(ops).next_label as nat) {
            Ok((code, n)) => r is Ok && final(ops).code@ == old(ops).code@ + code
                && final(ops).next_label == n,
            Err(x) => r matches Err(y) && y@ == x,
        },
        r is Ok ==> old(ops).next_label <= final(ops).next_label <= old(ops).next_label + 2
            * expr_size(e@),
    decreases e, 0int,
{
    let ghost n0 = ops.next_label;
    let ghost code0 = ops.code@;
    let rax = Operand::Reg(Reg::Rax);
    match e {
        Expr::Block(exprs) => {
            let ghost ev = exprs_view(exprs@);
            proof {
                lemma_exprs_view(exprs@);
                assert(decreases_to!(*e => (*e)->Block_0));
                assert forall|k: int| 0 <= k < exprs.len() implies decreases_to!(
                    *e => #[trigger] exprs[k]) by {
                    assert(decreases_to!(*exprs => exprs[k]));
                }
            }
            let mut i: usize = 0;
            assert(ev.take(0) =~= Seq::<ExprV>::empty());
            assert(ops.code@ =~= code0 + Seq::<Instr>::empty());
            let ghost mut gcode: Seq<Instr> = Seq::empty();
            while i < exprs.len()
                invariant
                    i <= exprs@.len(),
                    ev.len() == exprs@.len(),
                    forall|k: int| 0 <= k < exprs@.len() ==> #[trigger] ev[k] == exprs@[k]@,
                    ops.code@ == code0 + gcode,
                    jit_items(
                        ev.take(i as int),
                        si as int,
                        env@,
                        define_env@,
                        break_label,
                        n0 as nat,
                    ) == Ok::<(Seq<Instr>, nat), CompileErrorV>((gcode, ops.next_label as nat)),
                    n0 <= ops.next_label <= n0 + 2 * exprs_size(ev.take(i as int)),
                decreases exprs@.len() - i,
            {
                assert(ev.take(i + 1).drop_last() =~= ev.take(i as int));
                assert(ev.take(i + 1).last() == ev[i as int]);
                proof {
                    lemma_exprs_size_prefix(ev, i + 1);
                    lemma_exprs_depth_at(ev, i as int);
                }
                let ghost cp = gcode;
                let ghost before = ops.code@;
                let ghost nb = ops.next_label as nat;
                match compile_ops(&exprs[i], ops, si, env, define_env, break_label) {
                    Ok(()) => {},
                    Err(x) => {
                        proof {
                            lemma_jit_items_error_persists(
                                ev,
                                i + 1,
                                si as int,
                                env@,
                                define_env@,
                                break_label,
                                n0 as nat,
                            );
                        }
                        return Err(x);
                    },
                }
                let ghost cl = jit_code(ev[i as int], si as int, env@, define_env@, break_label, nb)->Ok_0.0;
                assert(ops.code@ =~= code0 + (cp + cl));
                proof {
                    gcode = cp + cl;
                }
                i = i + 1;
            }
            assert(ev.take(i as int) =~= ev);
            Ok(())
        },
        _ => Ok(()),
    }
}

/// The case of a unary operator of `compile_ops`.
fn compile_unop(
    e: &Expr,
    ops: &mut Assembler,
    si: i32,
    env: &Env<i32>,
    define_env: &Env<DefineValue>,
    break_label: Option<Label>,
) -> (r: Result<(), CompileError>)
    requires
        e is UnOp,
        -268435456 <= si,
        si + expr_depth(e@) <= 268435455,
        old(ops).next_label + 2 * expr_size(e@) <= u64::MAX,
    ensures
        match jit_code(e@, si as int, env@, define_env@, break_label, old(ops).next_label as nat) {
            Ok((code, n)) => r is Ok && final(ops).code@ == old(ops).code@ + code
                && final(ops).next_label == n,
            Err(x) => r matches Err(y) && y@ == x,
        },
        r is Ok ==> old(ops).next_label <= final(ops).next_label <= old(ops).next_label + 2
            * expr_size(e@),
    decreases e, 1int,
{
    let ghost n0 = ops.next_label;
    let ghost code0 = ops.code@;
    let rax = Operand::Reg(Reg::Rax);
    match e {
        Expr::UnOp(op, e1) => {
            let arith = match op {
                Op1::Add1 | Op1::Sub1 => true,
                _ => false,
            };
            if arith {
                if let Some(true) = get_static_type(e1, env, define_env) {
                    return Err(CompileError::InvalidArgument);
                }
            }
            match compile_ops(e1, ops, si, env, define_env, break_label) {
                Ok(()) => {},
                Err(x) => {
                    return Err(x);
                },
            }
            let ghost mid = ops.code@;
            let ghost n1 = ops.next_label;
            if arith {
                let error_label = ops.new_dynamic_label();
                let ok_label = ops.new_dynamic_label();
                ops.emit_guard(error_label);
                if *op == Op1::Add1 {
                    ops.emit(Instr::Add(rax, Operand::Imm(2)));
                } else {
                    ops.emit(Instr::Sub(rax, Operand::Imm(2)));
                }
                ops.emit_exit(error_label, ok_label);
            } else {
                let stack_offset = si * 8;
                ops.emit(Instr::Test(rax, Operand::Imm(1)));
                ops.emit(Instr::Mov(rax, Operand::Imm(1)));
                ops.emit(Instr::Mov(Operand::Stack(stack_offset), Operand::Imm(3)));
                if *op == Op1::IsNum {
                    ops.emit(Instr::CMov(Cond::Z, Reg::Rax, Operand::Stack(stack_offset)));
                } else {
                    ops.emit(Instr::CMov(Cond::NZ, Reg::Rax, Operand::Stack(stack_offset)));
                }
            }
            assert(ops.code@ =~= mid + jit_unop_tail(*op, si as int, n1 as nat));
            Ok(())
        },
        _ => Ok(()),
    }
}

/// The case of an `if` of `compile_ops`.
fn compile_if(
    e: &Expr,
    ops: &mut Assembler,
    si: i32,
    env: &Env<i32>,
    define_env: &Env<DefineValue>,
    break_label: Option<Label>,
) -> (r: Result<(), CompileError>)
    requires
        e is If,
        -268435456 <= si,
        si + expr_depth(e@) <= 268435455,
        old(ops).next_label + 2 * expr_size(e@) <= u64::MAX,
    ensures
        match jit_code(e@, si as int, env@, define_env@, break_label, old(ops).next_label as nat) {
            Ok((code, n)) => r is Ok && final(ops).code@ == old(ops).code@ + code
                && final(ops).next_label == n,
            Err(x) => r matches Err(y) && y@ == x,
        },
        r is Ok ==> old(ops).next_label <= final(ops).next_label <= old(ops).next_label + 2
            * expr_size(e@),
    decreases e, 1int,
{
    let ghost n0 = ops.next_label;
    let ghost code0 = ops.code@;
    let rax = Operand::Reg(Reg::Rax);
    match e {
        Expr::If(cond, true_code, false_code) => {
            match compile_ops(cond, ops, si, env, define_env, break_label) {
                Ok(()) => {},
                Err(x) => {
                    return Err(x);
                },
            }
            let ghost ca = ops.code@.subrange(code0.len() as int, ops.code@.len() as int);
            assert(ops.code@ =~= code0 + ca);
            let false_label = ops.new_dynamic_label();
            let done_label = ops.new_dynamic_label();
            ops.emit(Instr::Cmp(rax, Operand::Imm(1)));
            ops.emit(Instr::J(Cond::E, false_label));
            let ghost b1 = ops.code@;
            match compile_ops(true_code, ops, si, env, define_env, break_label) {
                Ok(()) => {},
                Err(x) => {
                    return Err(x);
                },
            }
            let ghost ct = ops.code@.subrange(b1.len() as int, ops.code@.len() as int);
            assert(ops.code@ =~= b1 + ct);
            ops.emit(Instr::Jmp(done_label));
            ops.emit(Instr::Mark(false_label));
            let ghost b2 = ops.code@;
            match compile_ops(false_code, ops, si, env, define_env, break_label) {
                Ok(()) => {},
                Err(x) => {
                    return Err(x);
                },
            }
            let ghost cf = ops.code@.subrange(b2.len() as int, ops.code@.len() as int);
            assert(ops.code@ =~= b2 + cf);
            ops.emit(Instr::Mark(done_label));
            assert(ops.code@ =~= code0 + (ca + seq![
                Instr::Cmp(rax, Operand::Imm(1)),
                Instr::J(Cond::E, false_label),
            ] + ct + seq![Instr::Jmp(done_label), Instr::Mark(false_label)] + cf + seq![
                Instr::Mark(done_label),
            ]));
            Ok(())
        },
        _ => Ok(()),
    }
}

/// Compiles `e` into `ops`, leaving its value in `rax`. `si` is the first
/// free stack slot, `env` maps the names in scope to stack words,
/// `define_env` holds the variables defined at the prompt, and `break_label`
/// is where a `break` jumps. The code, labels and errors are exactly
/// `jit_code`; on an error the buffer is left in no stated state.
#[verifier::loop_isolation(false)]
pub fn compile_ops(
    e: &Expr,
    ops: &mut Assembler,
    si: i32,
    env: &Env<i32>,
    define_env: &Env<DefineValue>,
    break_label: Option<Label>,
) -> (r: Result<(), CompileError>)
    requires
        -268435456 <= si,
        si + expr_depth(e@) <= 268435455,
        old(ops).next_label + 2 * expr_size(e@) <= u64::MAX,
    ensures
        match jit_code(e@, si as int, env@, define_env@, break_label, old(ops).next_label as nat) {
            Ok((code, n)) => r is Ok && final(ops).code@ == old(ops).code@ + code
                && final(ops).next_label == n,
            Err(x) => r matches Err(y) && y@ == x,
        },
        r is Ok ==> old(ops).next_label <= final(ops).next_label <= old(ops).next_label + 2
            * expr_size(e@),
    decreases e, 2int,
{
    let ghost n0 = ops.next_label;
    let ghost code0 = ops.code@;
    let rax = Operand::Reg(Reg::Rax);
    match e {
        Expr::Number(n) => {
            let tagged = n.wrapping_shl(1);
            ops.emit(Instr::Mov(rax, Operand::Imm(tagged)));
            Ok(())
        },
        Expr::Boolean(b) => {
            let val: i64 = if *b { 3 } else { 1 };
            ops.emit(Instr::Mov(rax, Operand::Imm(val)));
            Ok(())
        },
        Expr::Id(name) => {
            if str_eq(name.as_str(), "input") {
                ops.emit(Instr::Mov(rax, Operand::Reg(Reg::Rdi)));
                Ok(())
            } else if let Some(stack_offset) = env.get(name.as_str()) {
                ops.emit(Instr::Mov(rax, Operand::Stack(stack_offset)));
                Ok(())
            } else if let Some(def_val) = define_env.get(name.as_str()) {
                match def_val {
                    DefineValue::Known(val) => {
                        ops.emit(Instr::Mov(rax, Operand::Imm(val)));
                    },
                    DefineValue::Unknown(ptr) => {
                        ops.emit(Instr::Mov(rax, Operand::Imm(ptr)));
                        ops.emit(Instr::Mov(rax, Operand::Deref(Reg::Rax)));
                        assert(ops.code@ =~= code0 + seq![
                            Instr::Mov(rax, Operand::Imm(ptr)),
                            Instr::Mov(rax, Operand::Deref(Reg::Rax)),
                        ]);
                    },
                }
                Ok(())
            } else {
                Err(CompileError::Unbound(name.clone()))
            }
        },
        Expr::UnOp(..) => compile_unop(e, ops, si, env, define_env, break_label),
        Expr::BinOp(..) => compile_binop(e, ops, si, env, define_env, break_label),
        Expr::Let(..) => compile_let(e, ops, si, env, define_env, break_label),
        Expr::Define(_, sub) => compile_ops(sub, ops, si, env, define_env, break_label),
        Expr::Loop(body) => {
            let start_label = ops.new_dynamic_label();
            let end_label = ops.new_dynamic_label();
            ops.emit(Instr::Mark(start_label));
            let ghost before = ops.code@;
            match compile_ops(body, ops, si, env, define_env, Some(end_label)) {
                Ok(()) => {},
                Err(x) => {
                    return Err(x);
                },
            }
            let ghost cb = ops.code@.subrange(before.len() as int, ops.code@.len() as int);
            assert(ops.code@ =~= before + cb);
            ops.emit(Instr::Jmp(start_label));
            ops.emit(Instr::Mark(end_label));
            assert(ops.code@ =~= code0 + (seq![Instr::Mark(start_label)] + cb + seq![
                Instr::Jmp(start_label),
                Instr::Mark(end_label),
            ]));
            Ok(())
        },
        Expr::If(..) => compile_if(e, ops, si, env, define_env, break_label),
        Expr::Break(sub) => {
            match compile_ops(sub, ops, si, env, define_env, break_label) {
                Ok(()) => {},
                Err(x) => {
                    return Err(x);
                },
            }
            if let Some(label) = break_label {
                ops.emit(Instr::Jmp(label));
                Ok(())
            } else {
                Err(CompileError::BreakOutsideLoop)
            }
        },
        Expr::Block(..) => compile_block(e, ops, si, env, define_env, break_label),
        Expr::Assign(name, sub) => {
            match compile_ops(sub, ops, si, env, define_env, break_label) {
                Ok(()) => {},
                Err(x) => {
                    return Err(x);
                },
            }
            let ghost ca = ops.code@.subrange(code0.len() as int, ops.code@.len() as int);
            assert(ops.code@ =~= code0 + ca);
            if let Some(stack_offset) = env.get(name.as_str()) {
                ops.emit(Instr::Mov(Operand::Stack(stack_offset), rax));
                Ok(())
            } else if let Some(def_val) = define_env.get(name.as_str()) {
                match def_val {
                    DefineValue::Unknown(ptr) => {
                        ops.emit(Instr::Mov(Operand::Reg(Reg::Rcx), Operand::Imm(ptr)));
                        ops.emit(Instr::Mov(Operand::Deref(Reg::Rcx), rax));
                        assert(ops.code@ =~= code0 + (ca + seq![
                            Instr::Mov(Operand::Reg(Reg::Rcx), Operand::Imm(ptr)),
                            Instr::Mov(Operand::Deref(Reg::Rcx), rax),
                        ]));
                        Ok(())
                    },
                    DefineValue::Known(_) => Err(CompileError::ImmutableDefine),
                }
            } else {
                Err(CompileError::Unbound(name.clone()))
            }
        },
    }
}


/// Compiles a program for the in-memory assembler: load the input word into
/// `rdi`, the code of its expression from stack slot 2 with no names in scope,
/// no defined variables and no enclosing loop, then `ret`.
pub fn jit_program(e: &Expr, input_val: i64) -> (r: Result<Vec<Instr>, CompileError>)
    requires
        expr_depth(e@) <= 268435453,
        2 * expr_size(e@) <= u64::MAX,
    ensures
        match jit_code(e@, 2, Map::empty(), Map::empty(), None, 0) {
            Ok((code, _)) => r matches Ok(v) && v@ == seq![
                Instr::Mov(Operand::Reg(Reg::Rdi), Operand::Imm(input_val)),
            ] + code + seq![Instr::Ret],
            Err(x) => r matches Err(y) && y@ == x,
        },
{
    let mut ops = Assembler::new();
    ops.emit(Instr::Mov(Operand::Reg(Reg::Rdi), Operand::Imm(input_val)));
    let env: Env<i32> = Env::new();
    let define_env: Env<DefineValue> = Env::new();
    match compile_ops(e, &mut ops, 2, &env, &define_env, None) {
        Ok(()) => {},
        Err(x) => {
            return Err(x);
        },
    }
    ops.emit(Instr::Ret);
    Ok(ops.code)
}

} // verus!
