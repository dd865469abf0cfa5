//! What the generated code computes, on a model of the x86-64 machine that
//! covers the straight-line instructions the code generators emit, and what
//! the parser, the condition names and the static types mean.
use vstd::prelude::*;
use crate::ast::{ExprV, Op1, Op2};
use crate::parser::{ParseErrorV, atom_symbol, parse_sexpr, spec_op1, spec_op2};
use crate::sexpr::{SAtomV, SExprV};
use crate::jitgen::{
    DefineValue, jit_binop_tail, jit_code, jit_equal_tail, jit_unop_tail, static_type,
};
use crate::text::{decimal_of_int, is_digit, lemma_decimal_of_nat_value};
use crate::values::value_text;
use crate::textgen::{LabelCounters, binop_tail, equal_tail, rax, slot, text_code, unop_tail};
use crate::x86::{Cond, Instr, Label, Operand, Reg, cond_text};

verus! {

/// The state of the machine: the registers, the stack words below `rsp` by
/// their offsets, and the flags of the last comparison or arithmetic.
pub struct Machine {
    pub rax: int,
    pub rbx: int,
    pub rcx: int,
    pub rdi: int,
    pub stack: Map<int, int>,
    /// The last result, or the last comparison, was zero, or equal.
    pub zf: bool,
    /// The last comparison found its first operand less than its second.
    pub lt: bool,
    /// The last comparison found its first operand greater than its second.
    pub gt: bool,
    /// The last arithmetic result did not fit a signed 64-bit word.
    pub of: bool,
}

/// Whether `v` fits a signed 64-bit word.
pub open spec fn in_word(v: int) -> bool {
    i64::MIN <= v <= i64::MAX
}

/// The value of a register.
pub open spec fn reg_value(m: Machine, r: Reg) -> int {
    match r {
        Reg::Rax => m.rax,
        Reg::Rbx => m.rbx,
        Reg::Rcx => m.rcx,
        Reg::Rdi => m.rdi,
    }
}

/// The machine with register `r` set to `v`.
pub open spec fn set_reg(m: Machine, r: Reg, v: int) -> Machine {
    match r {
        Reg::Rax => Machine { rax: v, ..m },
        Reg::Rbx => Machine { rbx: v, ..m },
        Reg::Rcx => Machine { rcx: v, ..m },
        Reg::Rdi => Machine { rdi: v, ..m },
    }
}

/// The value an operand reads; a word behind a pointer is not modelled.
pub open spec fn operand_value(m: Machine, o: Operand) -> Option<int> {
    match o {
        Operand::Reg(r) => Some(reg_value(m, r)),
        Operand::Imm(n) => Some(n as int),
        Operand::Stack(off) => if m.stack.contains_key(off as int) {
            Some(m.stack[off as int])
        } else {
            None
        },
        Operand::Deref(_) => None,
    }
}

/// The machine with operand `o` written with `v`.
pub open spec fn write_operand(m: Machine, o: Operand, v: int) -> Option<Machine> {
    match o {
        Operand::Reg(r) => Some(set_reg(m, r, v)),
        Operand::Stack(off) => Some(Machine { stack: m.stack.insert(off as int, v), ..m }),
        _ => None,
    }
}

/// Whether a condition holds on the flags of the machine.
pub open spec fn cond_holds(c: Cond, m: Machine) -> bool {
    match c {
        Cond::E => m.zf,
        Cond::Z => m.zf,
        Cond::NZ => !m.zf,
        Cond::G => m.gt,
        Cond::GE => m.gt || m.zf,
        Cond::L => m.lt,
        Cond::LE => m.lt || m.zf,
        Cond::O => m.of,
    }
}

/// The machine after an arithmetic result `v` is written to `d`, its flags
/// set from `v`.
pub open spec fn arith_result(m: Machine, d: Operand, v: int) -> Option<Machine> {
    match write_operand(m, d, v) {
        Some(m1) => Some(Machine { zf: v == 0, lt: v < 0, gt: v > 0, of: !in_word(v), ..m1 }),
        None => None,
    }
}

/// One step of the machine: `None` where the instruction leaves the straight
/// line (a jump taken, `ret`, a system call) or is not modelled.
pub open spec fn step(m: Machine, i: Instr) -> Option<Machine> {
    match i {
        Instr::Mov(d, s) => match operand_value(m, s) {
            Some(v) => write_operand(m, d, v),
            None => None,
        },
        Instr::Add(d, s) => match (operand_value(m, d), operand_value(m, s)) {
            (Some(a), Some(b)) => arith_result(m, d, a + b),
            _ => None,
        },
        Instr::Sub(d, s) => match (operand_value(m, d), operand_value(m, s)) {
            (Some(a), Some(b)) => arith_result(m, d, a - b),
            _ => None,
        },
        Instr::IMul(r, s) => match operand_value(m, s) {
            Some(b) => arith_result(m, Operand::Reg(r), reg_value(m, r) * b),
            None => None,
        },
        Instr::Sar(r, n) => if n == 1 {
            Some(set_reg(m, r, reg_value(m, r) / 2))
        } else {
            None
        },
        Instr::Xor(d, s) => match (operand_value(m, d), operand_value(m, s)) {
            (Some(a), Some(b)) => if in_word(a) && in_word(b) {
                arith_result(m, d, ((a as i64) ^ (b as i64)) as int)
            } else {
                None
            },
            _ => None,
        },
        Instr::Cmp(d, s) => match (operand_value(m, d), operand_value(m, s)) {
            (Some(a), Some(b)) => Some(Machine { zf: a == b, lt: a < b, gt: a > b, of: false, ..m }),
            _ => None,
        },
        Instr::Test(d, s) => match (operand_value(m, d), operand_value(m, s)) {
            (Some(a), Some(b)) => if b == 1 {
                Some(Machine { zf: a % 2 == 0, ..m })
            } else {
                None
            },
            _ => None,
        },
        Instr::CMov(c, r, s) => match operand_value(m, s) {
            Some(v) => if cond_holds(c, m) {
                Some(set_reg(m, r, v))
            } else {
                Some(m)
            },
            None => None,
        },
        Instr::J(c, _) => if cond_holds(c, m) {
            None
        } else {
            Some(m)
        },
        Instr::Mark(_) => Some(m),
        Instr::NewLine(_) => Some(m),
        _ => None,
    }
}

/// The machine after running `code` on the straight line from `m`.
pub open spec fn run(m: Machine, code: Seq<Instr>) -> Option<Machine>
    decreases code.len(),
{
    if code.len() == 0 {
        Some(m)
    } else {
        match run(m, code.drop_last()) {
            Some(m1) => step(m1, code.last()),
            None => None,
        }
    }
}

/// The tagged word a binary operator gives on the numbers `a` and `b`: twice
/// the sum, difference or product, or `3` (true) where the comparison holds
/// and `1` (false) where it does not.
pub open spec fn op2_word(op: Op2, a: int, b: int) -> int {
    let t = |p: bool| if p {
        3int
    } else {
        1int
    };
    match op {
        Op2::Plus => 2 * (a + b),
        Op2::Minus => 2 * (a - b),
        Op2::Times => 2 * (a * b),
        Op2::Equal => t(a == b),
        Op2::Greater => t(a > b),
        Op2::GreaterEqual => t(a >= b),
        Op2::Less => t(a < b),
        Op2::LessEqual => t(a <= b),
    }
}

proof fn lemma_run_push(m: Machine, s: Seq<Instr>, i: Instr)
    ensures
        run(m, s.push(i)) == (match run(m, s) {
            Some(m1) => step(m1, i),
            None => None,
        }),
{
    assert(s.push(i).drop_last() =~= s);
    assert(s.push(i).last() == i);
}

/// One more step after a run, where the run stayed on the straight line.
pub open spec fn then(o: Option<Machine>, i: Instr) -> Option<Machine> {
    match o {
        Some(m1) => step(m1, i),
        None => None,
    }
}

proof fn lemma_run1(m: Machine, a: Instr)
    ensures
        run(m, seq![a]) == then(Some(m), a),
{
    lemma_run_push(m, Seq::<Instr>::empty(), a);
    assert(seq![a] =~= Seq::<Instr>::empty().push(a));
    assert(run(m, Seq::<Instr>::empty()) == Some(m));
}

proof fn lemma_run2(m: Machine, a: Instr, b: Instr)
    ensures
        run(m, seq![a, b]) == then(then(Some(m), a), b),
{
    lemma_run1(m, a);
    lemma_run_push(m, seq![a], b);
    assert(seq![a, b] =~= seq![a].push(b));
}

proof fn lemma_run3(m: Machine, a: Instr, b: Instr, c: Instr)
    ensures
        run(m, seq![a, b, c]) == then(then(then(Some(m), a), b), c),
{
    lemma_run2(m, a, b);
    lemma_run_push(m, seq![a, b], c);
    assert(seq![a, b, c] =~= seq![a, b].push(c));
}

proof fn lemma_run4(m: Machine, a: Instr, b: Instr, c: Instr, d: Instr)
    ensures
        run(m, seq![a, b, c, d]) == then(then(then(then(Some(m), a), b), c), d),
{
    lemma_run3(m, a, b, c);
    lemma_run_push(m, seq![a, b, c], d);
    assert(seq![a, b, c, d] =~= seq![a, b, c].push(d));
}

proof fn lemma_run5(m: Machine, a: Instr, b: Instr, c: Instr, d: Instr, e: Instr)
    ensures
        run(m, seq![a, b, c, d, e]) == then(then(then(then(then(Some(m), a), b), c), d), e),
{
    lemma_run4(m, a, b, c, d);
    lemma_run_push(m, seq![a, b, c, d], e);
    assert(seq![a, b, c, d, e] =~= seq![a, b, c, d].push(e));
}

proof fn lemma_run6(m: Machine, a: Instr, b: Instr, c: Instr, d: Instr, e: Instr, f: Instr)
    ensures
        run(m, seq![a, b, c, d, e, f]) == then(
            then(then(then(then(then(Some(m), a), b), c), d), e),
            f,
        ),
{
    lemma_run5(m, a, b, c, d, e);
    lemma_run_push(m, seq![a, b, c, d, e], f);
    assert(seq![a, b, c, d, e, f] =~= seq![a, b, c, d, e].push(f));
}

proof fn lemma_run7(m: Machine, a: Instr, b: Instr, c: Instr, d: Instr, e: Instr, f: Instr, g: Instr)
    ensures
        run(m, seq![a, b, c, d, e, f, g]) == then(run(m, seq![a, b, c, d, e, f]), g),
{
    lemma_run_push(m, seq![a, b, c, d, e, f], g);
    assert(seq![a, b, c, d, e, f, g] =~= seq![a, b, c, d, e, f].push(g));
}

proof fn lemma_run8(
    m: Machine,
    a: Instr,
    b: Instr,
    c: Instr,
    d: Instr,
    e: Instr,
    f: Instr,
    g: Instr,
    h: Instr,
)
    ensures
        run(m, seq![a, b, c, d, e, f, g, h]) == then(run(m, seq![a, b, c, d, e, f, g]), h),
{
    lemma_run_push(m, seq![a, b, c, d, e, f, g], h);
    assert(seq![a, b, c, d, e, f, g, h] =~= seq![a, b, c, d, e, f, g].push(h));
}

proof fn lemma_run9(
    m: Machine,
    a: Instr,
    b: Instr,
    c: Instr,
    d: Instr,
    e: Instr,
    f: Instr,
    g: Instr,
    h: Instr,
    i: Instr,
)
    ensures
        run(m, seq![a, b, c, d, e, f, g, h, i]) == then(run(m, seq![a, b, c, d, e, f, g, h]), i),
{
    lemma_run_push(m, seq![a, b, c, d, e, f, g, h], i);
    assert(seq![a, b, c, d, e, f, g, h, i] =~= seq![a, b, c, d, e, f, g, h].push(i));
}

/// The exclusive or of two words has its low bit clear exactly when their low
/// bits agree.
proof fn lemma_xor_parity(a: i64, b: i64)
    ensures
        ((a ^ b) as int) % 2 == 0 <==> (a as int) % 2 == (b as int) % 2,
{
    let x = a ^ b;
    assert((x & 1) == 0 <==> (a & 1) == (b & 1)) by (bit_vector)
        requires
            x == a ^ b,
    ;
    assert((a & 1) == 0 <==> a % 2 == 0) by (bit_vector);
    assert((b & 1) == 0 <==> b % 2 == 0) by (bit_vector);
    assert((x & 1) == 0 <==> x % 2 == 0) by (bit_vector);
    assert((a & 1) == 0 || (a & 1) == 1) by (bit_vector);
    assert((b & 1) == 0 || (b & 1) == 1) by (bit_vector);
    assert(a % 2 == (a as int) % 2 && b % 2 == (b as int) % 2 && x % 2 == (x as int) % 2);
}

/// The assembly text of an equality test computes it: with the first word
/// `va` in its stack word and the second `vb` in `rax`, words of different
/// types leave the straight line for the error routine, and words of one
/// type leave `true` (3) in `rax` exactly when they are equal, else `false`
/// (1).
pub proof fn law_text_equal_computes(o: i32, m: Machine, va: i64, vb: i64)
    requires
        m.stack.contains_key(o as int),
        m.stack[o as int] == va,
        m.rax == vb,
    ensures
        (va as int) % 2 != (vb as int) % 2 ==> run(m, equal_tail(Operand::Stack(o))) is None,
        (va as int) % 2 == (vb as int) % 2 ==> (run(m, equal_tail(Operand::Stack(o))) matches Some(m2)
            && m2.rax == (if va == vb {
            3int
        } else {
            1int
        })),
{
    let t = equal_tail(Operand::Stack(o));
    lemma_xor_parity(vb, va);
    lemma_run6(m, t[0], t[1], t[2], t[3], t[4], t[5]);
    lemma_run7(m, t[0], t[1], t[2], t[3], t[4], t[5], t[6]);
    lemma_run8(m, t[0], t[1], t[2], t[3], t[4], t[5], t[6], t[7]);
    assert(t == seq![t[0], t[1], t[2], t[3], t[4], t[5], t[6], t[7]]);
}

/// The in-memory code of an equality test computes it up to its error exit:
/// with the first word `va` in slot `si` and the second `vb` in `rax`, words
/// of different types jump to the error exit, and words of one type leave
/// `true` (3) in `rax` exactly when they are equal, else `false` (1).
pub proof fn law_jit_equal_computes(si: int, err: Label, ok: Label, m: Machine, va: i64, vb: i64)
    requires
        -268435456 <= si <= 268435454,
        m.stack.contains_key(si * 8),
        m.stack[si * 8] == va,
        m.rax == vb,
    ensures
        (va as int) % 2 != (vb as int) % 2 ==> run(m, jit_equal_tail(si, err, ok).take(9)) is None,
        (va as int) % 2 == (vb as int) % 2 ==> (run(m, jit_equal_tail(si, err, ok).take(9)) matches Some(
            m2,
        ) && m2.rax == (if va == vb {
            3int
        } else {
            1int
        })),
{
    let t = jit_equal_tail(si, err, ok).take(9);
    assert(((si * 8) as i32) as int == si * 8);
    assert((((si + 1) * 8) as i32) as int == (si + 1) * 8);
    lemma_xor_parity(vb, va);
    lemma_run6(m, t[0], t[1], t[2], t[3], t[4], t[5]);
    lemma_run7(m, t[0], t[1], t[2], t[3], t[4], t[5], t[6]);
    lemma_run8(m, t[0], t[1], t[2], t[3], t[4], t[5], t[6], t[7]);
    lemma_run9(m, t[0], t[1], t[2], t[3], t[4], t[5], t[6], t[7], t[8]);
    assert(t =~= seq![t[0], t[1], t[2], t[3], t[4], t[5], t[6], t[7], t[8]]);
}

/// The assembly text of an arithmetic or ordering operator computes it: with
/// the tagged number `2a` of the first operand in its stack word and the
/// tagged number `2b` of the second in `rax`, the code leaves in `rax` the
/// tagged result `op2_word(op, a, b)`: twice the sum, difference (the first
/// operand minus the second) or product, or the boolean of the comparison of
/// the first operand with the second.
pub proof fn law_text_binop_computes(op: Op2, o: i32, m: Machine, a: int, b: int)
    requires
        op != Op2::Equal,
        m.stack.contains_key(o as int),
        m.stack[o as int] == 2 * a,
        m.rax == 2 * b,
        in_word(2 * a),
        in_word(2 * b),
        in_word(op2_word(op, a, b)),
    ensures
        run(m, binop_tail(op, Operand::Stack(o))) matches Some(m2) && m2.rax == op2_word(op, a, b),
{
    let off = Operand::Stack(o);
    let t = binop_tail(op, off);
    match op {
        Op2::Plus => {
            lemma_run2(m, t[0], t[1]);
            assert(t == seq![t[0], t[1]]);
        },
        Op2::Minus => {
            lemma_run4(m, t[0], t[1], t[2], t[3]);
            assert(t == seq![t[0], t[1], t[2], t[3]]);
        },
        Op2::Times => {
            lemma_run3(m, t[0], t[1], t[2]);
            assert(t == seq![t[0], t[1], t[2]]);
            assert((2 * b) / 2 == b);
            assert(b * (2 * a) == 2 * (a * b)) by (nonlinear_arith);
        },
        _ => {
            lemma_run6(m, t[0], t[1], t[2], t[3], t[4], t[5]);
            assert(t == seq![t[0], t[1], t[2], t[3], t[4], t[5]]);
        },
    }
}

/// The in-memory code of an arithmetic or ordering operator computes it: with
/// the tagged number `2a` of the first operand in stack slot `si` and the
/// tagged number `2b` of the second in `rax`, the code leaves in `rax` the
/// tagged result `op2_word(op, a, b)`.
pub proof fn law_jit_binop_computes(op: Op2, si: int, m: Machine, a: int, b: int)
    requires
        op != Op2::Equal,
        -268435456 <= si <= 268435454,
        m.stack.contains_key(si * 8),
        m.stack[si * 8] == 2 * a,
        m.rax == 2 * b,
        in_word(2 * a),
        in_word(2 * b),
        in_word(op2_word(op, a, b)),
    ensures
        run(m, jit_binop_tail(op, si)) matches Some(m2) && m2.rax == op2_word(op, a, b),
{
    let t = jit_binop_tail(op, si);
    assert(slot(si) == Operand::Stack((si * 8) as i32));
    assert(((si * 8) as i32) as int == si * 8);
    assert((((si + 1) * 8) as i32) as int == (si + 1) * 8);
    match op {
        Op2::Plus => {
            lemma_run1(m, t[0]);
            assert(t == seq![t[0]]);
        },
        Op2::Minus => {
            lemma_run3(m, t[0], t[1], t[2]);
            assert(t == seq![t[0], t[1], t[2]]);
        },
        Op2::Times => {
            lemma_run2(m, t[0], t[1]);
            assert(t == seq![t[0], t[1]]);
            assert((2 * b) / 2 == b);
            assert(b * (2 * a) == 2 * (a * b)) by (nonlinear_arith);
        },
        _ => {
            lemma_run6(m, t[0], t[1], t[2], t[3], t[4], t[5]);
            assert(t == seq![t[0], t[1], t[2], t[3], t[4], t[5]]);
        },
    }
}

/// What an x86 condition-code suffix tests, as the instruction set defines
/// it (`je`/`jz`, `jne`/`jnz`, `jg`, `jge`, `jl`, `jle`, `jo`), on the flags
/// of the machine; a text that is no suffix tests nothing.
pub open spec fn suffix_meaning(t: Seq<char>, m: Machine) -> bool {
    if t == "e"@ || t == "z"@ {
        m.zf
    } else if t == "ne"@ || t == "nz"@ {
        !m.zf
    } else if t == "g"@ {
        m.gt
    } else if t == "ge"@ {
        m.gt || m.zf
    } else if t == "l"@ {
        m.lt
    } else if t == "le"@ {
        m.lt || m.zf
    } else if t == "o"@ {
        m.of
    } else {
        false
    }
}

/// Each condition is written as the suffix that tests it: on every state of
/// the flags, the suffix in the assembly text holds exactly when the
/// condition does; and distinct conditions are written distinctly.
pub proof fn law_condition_text(c: Cond, d: Cond, m: Machine)
    ensures
        suffix_meaning(cond_text(c), m) == cond_holds(c, m),
        cond_text(c) == cond_text(d) ==> c == d,
{
    reveal_strlit("e");
    reveal_strlit("z");
    reveal_strlit("ne");
    reveal_strlit("nz");
    reveal_strlit("g");
    reveal_strlit("ge");
    reveal_strlit("l");
    reveal_strlit("le");
    reveal_strlit("o");
    let lits = seq!["e"@, "z"@, "ne"@, "nz"@, "g"@, "ge"@, "l"@, "le"@, "o"@];
    assert("e"@ =~= seq!['e']);
    assert("z"@ =~= seq!['z']);
    assert("ne"@ =~= seq!['n', 'e']);
    assert("nz"@ =~= seq!['n', 'z']);
    assert("g"@ =~= seq!['g']);
    assert("ge"@ =~= seq!['g', 'e']);
    assert("l"@ =~= seq!['l']);
    assert("le"@ =~= seq!['l', 'e']);
    assert("o"@ =~= seq!['o']);
    assert forall|i: int, j: int| 0 <= i < j < 9 implies #[trigger] lits[i] != #[trigger] lits[j] by {
        if lits[i].len() == lits[j].len() {
            if lits[i].len() == 1 {
                assert(lits[i][0] != lits[j][0]);
            } else {
                assert(lits[i][0] != lits[j][0] || lits[i][1] != lits[j][1]);
            }
        }
    }
    assert(lits[0] == "e"@ && lits[1] == "z"@ && lits[2] == "ne"@ && lits[3] == "nz"@);
    assert(lits[4] == "g"@ && lits[5] == "ge"@ && lits[6] == "l"@ && lits[7] == "le"@);
    assert(lits[8] == "o"@);
}

/// The static type of a defined variable with a known word agrees with how
/// the word prints: a boolean (`Some(true)`) exactly when it prints as `true`
/// or `false`, a number (`Some(false)`) otherwise; a stack variable of the
/// same name is unknown.
pub proof fn law_static_type_of_defined(
    x: Seq<char>,
    env: Map<Seq<char>, i32>,
    denv: Map<Seq<char>, DefineValue>,
    w: i64,
)
    requires
        x != "input"@,
        denv.contains_key(x),
        denv[x] == DefineValue::Known(w),
    ensures
        !env.contains_key(x) ==> static_type(ExprV::Id(x), env, denv) == Some(
            value_text(w) == "true"@ || value_text(w) == "false"@,
        ),
        env.contains_key(x) ==> static_type(ExprV::Id(x), env, denv) is None,
{
    reveal_strlit("true");
    reveal_strlit("false");
    assert((w & 1) == 1 <==> w % 2 != 0) by (bit_vector);
    if w % 2 == 0 {
        let n = w / 2;
        let t = decimal_of_int(n as int);
        if n < 0 {
            assert(t[0] == '-');
        } else {
            lemma_decimal_of_nat_value(n as nat);
            assert(is_digit(t[0]));
        }
        assert(t != "true"@ && t != "false"@) by {
            if t == "true"@ {
                assert(t[0] == 't');
            }
            if t == "false"@ {
                assert(t[0] == 'f');
            }
        }
    }
}

/// The form `(w x y)`.
pub open spec fn binop_form(w: Seq<char>, x: SExprV, y: SExprV) -> SExprV {
    SExprV::List(seq![SExprV::Atom(SAtomV::S(w)), x, y])
}

/// Reading the operands `x` then `y` of the binary operator `op`, the
/// `define` count threaded from the first to the second.
pub open spec fn read_binop(op: Op2, x: SExprV, y: SExprV, cnt: int, repl: bool) -> (
    Result<ExprV, ParseErrorV>,
    int,
) {
    let (r1, c1) = parse_sexpr(x, cnt, repl);
    match r1 {
        Err(e) => (Err(e), c1),
        Ok(e1) => {
            let (r2, c2) = parse_sexpr(y, c1, repl);
            (
                match r2 {
                    Ok(e2) => Ok(ExprV::BinOp(op, Box::new(e1), Box::new(e2))),
                    Err(e) => Err(e),
                },
                c2,
            )
        },
    }
}

proof fn lemma_binop_word(w: Seq<char>, op: Op2, x: SExprV, y: SExprV, cnt: int, repl: bool)
    requires
        spec_op2(w) == Some(op),
    ensures
        parse_sexpr(binop_form(w, x, y), cnt, repl) == read_binop(op, x, y, cnt, repl),
{
    let v = seq![SExprV::Atom(SAtomV::S(w)), x, y];
    assert(atom_symbol(v[0]) == Some(w));
    assert(v[1] == x && v[2] == y);
}

/// Each operator word reads, whatever its operands, as the operator of the
/// same name: `+` as `Plus`, `-` as `Minus`, `*` as `Times`, `=` as `Equal`,
/// `>` as `Greater`, `>=` as `GreaterEqual`, `<` as `Less` and `<=` as
/// `LessEqual`.
pub proof fn law_operator_words(x: SExprV, y: SExprV, cnt: int, repl: bool)
    ensures
        parse_sexpr(binop_form("+"@, x, y), cnt, repl) == read_binop(Op2::Plus, x, y, cnt, repl),
        parse_sexpr(binop_form("-"@, x, y), cnt, repl) == read_binop(Op2::Minus, x, y, cnt, repl),
        parse_sexpr(binop_form("*"@, x, y), cnt, repl) == read_binop(Op2::Times, x, y, cnt, repl),
        parse_sexpr(binop_form("="@, x, y), cnt, repl) == read_binop(Op2::Equal, x, y, cnt, repl),
        parse_sexpr(binop_form(">"@, x, y), cnt, repl) == read_binop(Op2::Greater, x, y, cnt, repl),
        parse_sexpr(binop_form(">="@, x, y), cnt, repl) == read_binop(Op2::GreaterEqual, x, y, cnt, repl),
        parse_sexpr(binop_form("<"@, x, y), cnt, repl) == read_binop(Op2::Less, x, y, cnt, repl),
        parse_sexpr(binop_form("<="@, x, y), cnt, repl) == read_binop(Op2::LessEqual, x, y, cnt, repl),
{
    reveal_strlit("+");
    reveal_strlit("-");
    reveal_strlit("*");
    reveal_strlit("=");
    reveal_strlit(">");
    reveal_strlit(">=");
    reveal_strlit("<");
    reveal_strlit("<=");
    assert("+"@ =~= seq!['+']);
    assert("-"@ =~= seq!['-']);
    assert("*"@ =~= seq!['*']);
    assert("="@ =~= seq!['=']);
    assert(">"@ =~= seq!['>']);
    assert(">="@ =~= seq!['>', '=']);
    assert("<"@ =~= seq!['<']);
    assert("<="@ =~= seq!['<', '=']);
    let lits = seq!["+"@, "-"@, "*"@, "="@, ">"@, ">="@, "<"@, "<="@];
    assert(lits[0] == "+"@ && lits[1] == "-"@ && lits[2] == "*"@ && lits[3] == "="@ && lits[4] == ">"@ && lits[5] == ">="@ && lits[6] == "<"@ && lits[7] == "<="@);
    assert forall|i: int, j: int| 0 <= i < j < 8 implies #[trigger] lits[i] != #[trigger] lits[j] by {
        if lits[i].len() == lits[j].len() {
            if lits[i].len() == 1 {
                assert(lits[i][0] != lits[j][0]);
            } else {
                assert(lits[i][0] != lits[j][0] || lits[i][1] != lits[j][1]);
            }
        }
    }
    assert(spec_op2("+"@) == Some(Op2::Plus));
    lemma_binop_word("+"@, Op2::Plus, x, y, cnt, repl);
    assert(spec_op2("-"@) == Some(Op2::Minus));
    lemma_binop_word("-"@, Op2::Minus, x, y, cnt, repl);
    assert(spec_op2("*"@) == Some(Op2::Times));
    lemma_binop_word("*"@, Op2::Times, x, y, cnt, repl);
    assert(spec_op2("="@) == Some(Op2::Equal));
    lemma_binop_word("="@, Op2::Equal, x, y, cnt, repl);
    assert(spec_op2(">"@) == Some(Op2::Greater));
    lemma_binop_word(">"@, Op2::Greater, x, y, cnt, repl);
    assert(spec_op2(">="@) == Some(Op2::GreaterEqual));
    lemma_binop_word(">="@, Op2::GreaterEqual, x, y, cnt, repl);
    assert(spec_op2("<"@) == Some(Op2::Less));
    lemma_binop_word("<"@, Op2::Less, x, y, cnt, repl);
    assert(spec_op2("<="@) == Some(Op2::LessEqual));
    lemma_binop_word("<="@, Op2::LessEqual, x, y, cnt, repl);
}

/// The word a unary operator leaves for the word `v`: `add1` and `sub1` add
/// and take one from a number (two from its tagged word), `isnum` and
/// `isbool` give the boolean of the word's tag bit.
pub open spec fn op1_word(op: Op1, v: int) -> int {
    match op {
        Op1::Add1 => v + 2,
        Op1::Sub1 => v - 2,
        Op1::IsNum => if v % 2 == 0 {
            3
        } else {
            1
        },
        Op1::IsBool => if v % 2 == 0 {
            1
        } else {
            3
        },
    }
}

/// The assembly text of a unary operator computes it on the word `v` in
/// `rax`: `isnum` and `isbool` test its tag bit; `add1` and `sub1` change a
/// number by one, and on a boolean leave the straight line for the error
/// routine.
pub proof fn law_text_unop_computes(op: Op1, m: Machine)
    requires
        in_word(m.rax + 2),
        in_word(m.rax - 2),
    ensures
        (op == Op1::Add1 || op == Op1::Sub1) && m.rax % 2 != 0 ==> run(m, unop_tail(op)) is None,
        (op == Op1::IsNum || op == Op1::IsBool || m.rax % 2 == 0) ==> (run(m, unop_tail(op)) matches Some(
            m2,
        ) && m2.rax == op1_word(op, m.rax)),
{
    let t = unop_tail(op);
    match op {
        Op1::Add1 | Op1::Sub1 => {
            lemma_run3(m, t[0], t[1], t[2]);
            assert(t == seq![t[0], t[1], t[2]]);
        },
        _ => {
            lemma_run5(m, t[0], t[1], t[2], t[3], t[4]);
            assert(t == seq![t[0], t[1], t[2], t[3], t[4]]);
        },
    }
}

/// The in-memory code of `isnum` and `isbool` computes them on the word in
/// `rax`, using stack slot `si` as scratch.
pub proof fn law_jit_type_test_computes(op: Op1, si: int, next: nat, m: Machine)
    requires
        op == Op1::IsNum || op == Op1::IsBool,
        -268435456 <= si <= 268435455,
    ensures
        run(m, jit_unop_tail(op, si, next)) matches Some(m2) && m2.rax == op1_word(op, m.rax),
{
    let t = jit_unop_tail(op, si, next);
    assert(((si * 8) as i32) as int == si * 8);
    lemma_run4(m, t[0], t[1], t[2], t[3]);
    assert(t == seq![t[0], t[1], t[2], t[3]]);
}

/// The in-memory code of `add1` and `sub1` computes them up to its error
/// exit: a number in `rax` changes by one (two in its tagged word), and a
/// boolean jumps to the error exit.
pub proof fn law_jit_increment_computes(op: Op1, si: int, next: nat, m: Machine)
    requires
        op == Op1::Add1 || op == Op1::Sub1,
        in_word(m.rax + 2),
        in_word(m.rax - 2),
    ensures
        m.rax % 2 != 0 ==> run(m, jit_unop_tail(op, si, next).take(3)) is None,
        m.rax % 2 == 0 ==> (run(m, jit_unop_tail(op, si, next).take(3)) matches Some(m2) && m2.rax
            == op1_word(op, m.rax)),
{
    let t = jit_unop_tail(op, si, next).take(3);
    lemma_run3(m, t[0], t[1], t[2]);
    assert(t =~= seq![t[0], t[1], t[2]]);
}

/// A literal leaves its tagged word in `rax`, in both code generators: a
/// number `n` of 63 bits the word `2n`, `true` the word `3`, `false` `1`.
pub proof fn law_literals(n: i64, b: bool, m: Machine)
    requires
        crate::textgen::fits_63(n as int),
    ensures
        text_code(ExprV::Number(n), 0, Map::empty(), None, LabelCounters { ifs: 0, loops: 0 })
            is Ok,
        run(
            m,
            text_code(ExprV::Number(n), 0, Map::empty(), None, LabelCounters { ifs: 0, loops: 0 })->Ok_0.0,
        ) == Some(set_reg(m, Reg::Rax, 2 * n)),
        jit_code(ExprV::Number(n), 0, Map::empty(), Map::empty(), None, 0) is Ok,
        run(m, jit_code(ExprV::Number(n), 0, Map::empty(), Map::empty(), None, 0)->Ok_0.0) == Some(
            set_reg(m, Reg::Rax, 2 * n),
        ),
        run(
            m,
            text_code(ExprV::Boolean(b), 0, Map::empty(), None, LabelCounters { ifs: 0, loops: 0 })->Ok_0.0,
        ) == Some(set_reg(m, Reg::Rax, if b { 3 } else { 1 })),
        run(m, jit_code(ExprV::Boolean(b), 0, Map::empty(), Map::empty(), None, 0)->Ok_0.0) == Some(
            set_reg(m, Reg::Rax, if b { 3 } else { 1 }),
        ),
{
    let i1 = Instr::Mov(rax(), Operand::Imm((n * 2) as i64));
    let i2 = Instr::Mov(rax(), Operand::Imm(n.wrapping_shl(1)));
    assert(n.wrapping_shl(1) == (n * 2) as i64) by (bit_vector)
        requires
            -4611686018427387904 <= n <= 4611686018427387903;
    lemma_run1(m, i1);
    lemma_run1(m, i2);
    lemma_run1(m, Instr::Mov(rax(), Operand::Imm(if b { 3 } else { 1 })));
}

/// The form `(w x)`.
pub open spec fn unop_form(w: Seq<char>, x: SExprV) -> SExprV {
    SExprV::List(seq![SExprV::Atom(SAtomV::S(w)), x])
}

/// Reading the operand `x` of the unary operator `op`.
pub open spec fn read_unop(op: Op1, x: SExprV, cnt: int, repl: bool) -> (
    Result<ExprV, ParseErrorV>,
    int,
) {
    let (r, c) = parse_sexpr(x, cnt, repl);
    (
        match r {
            Ok(e) => Ok(ExprV::UnOp(op, Box::new(e))),
            Err(e) => Err(e),
        },
        c,
    )
}

proof fn lemma_unop_word(w: Seq<char>, op: Op1, x: SExprV, cnt: int, repl: bool)
    requires
        spec_op1(w) == Some(op),
    ensures
        parse_sexpr(unop_form(w, x), cnt, repl) == read_unop(op, x, cnt, repl),
{
    let v = seq![SExprV::Atom(SAtomV::S(w)), x];
    assert(atom_symbol(v[0]) == Some(w));
    assert(v[1] == x);
}

/// Each unary operator word reads, whatever its operand, as the operator of
/// the same name: `add1` as `Add1`, `sub1` as `Sub1`, `isnum` as `IsNum` and
/// `isbool` as `IsBool`.
pub proof fn law_unary_operator_words(x: SExprV, cnt: int, repl: bool)
    ensures
        parse_sexpr(unop_form("add1"@, x), cnt, repl) == read_unop(Op1::Add1, x, cnt, repl),
        parse_sexpr(unop_form("sub1"@, x), cnt, repl) == read_unop(Op1::Sub1, x, cnt, repl),
        parse_sexpr(unop_form("isnum"@, x), cnt, repl) == read_unop(Op1::IsNum, x, cnt, repl),
        parse_sexpr(unop_form("isbool"@, x), cnt, repl) == read_unop(Op1::IsBool, x, cnt, repl),
{
    reveal_strlit("add1");
    reveal_strlit("sub1");
    reveal_strlit("isnum");
    reveal_strlit("isbool");
    assert("add1"@.len() == 4 && "sub1"@.len() == 4 && "isnum"@.len() == 5 && "isbool"@.len() == 6);
    assert("add1"@[0] != "sub1"@[0]);
    assert("isnum"@ != "add1"@ && "isnum"@ != "sub1"@);
    assert("isbool"@ != "add1"@ && "isbool"@ != "sub1"@ && "isbool"@ != "isnum"@);
    assert(spec_op1("add1"@) == Some(Op1::Add1));
    lemma_unop_word("add1"@, Op1::Add1, x, cnt, repl);
    assert(spec_op1("sub1"@) == Some(Op1::Sub1));
    lemma_unop_word("sub1"@, Op1::Sub1, x, cnt, repl);
    assert(spec_op1("isnum"@) == Some(Op1::IsNum));
    lemma_unop_word("isnum"@, Op1::IsNum, x, cnt, repl);
    assert(spec_op1("isbool"@) == Some(Op1::IsBool));
    lemma_unop_word("isbool"@, Op1::IsBool, x, cnt, repl);
}

/// Each register is written by its x86 name, so that the assembler reads the
/// register the instruction means.
pub open spec fn register_named(t: Seq<char>, m: Machine) -> Option<int> {
    if t == "rax"@ {
        Some(m.rax)
    } else if t == "rbx"@ {
        Some(m.rbx)
    } else if t == "rcx"@ {
        Some(m.rcx)
    } else if t == "rdi"@ {
        Some(m.rdi)
    } else {
        None
    }
}

/// The text of a register names that register: read back by its x86 name it
/// gives the register's value, on every state of the machine.
pub proof fn law_register_text(r: Reg, m: Machine)
    ensures
        register_named(crate::x86::reg_text(r), m) == Some(reg_value(m, r)),
{
    reveal_strlit("rax");
    reveal_strlit("rbx");
    reveal_strlit("rcx");
    reveal_strlit("rdi");
    assert("rax"@[1] != "rbx"@[1] && "rax"@[1] != "rcx"@[1] && "rax"@[1] != "rdi"@[1]);
    assert("rbx"@[1] != "rcx"@[1] && "rbx"@[1] != "rdi"@[1] && "rcx"@[1] != "rdi"@[1]);
}

/// A literal's static type is that of its word: a number is a number, a
/// boolean a boolean, whatever the environments.
pub proof fn law_static_type_of_literals(
    n: i64,
    b: bool,
    env: Map<Seq<char>, i32>,
    denv: Map<Seq<char>, DefineValue>,
)
    ensures
        static_type(ExprV::Number(n), env, denv) == Some(false),
        static_type(ExprV::Boolean(b), env, denv) == Some(true),
{
}

} // verus!
