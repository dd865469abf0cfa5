use vstd::prelude::*;
use crate::text::{decimal_of_int, i64_to_decimal};

verus! {

/// The registers the generated code uses.
#[derive(Clone, Copy, PartialEq, Eq, Structural, Debug)]
pub enum Reg {
    Rax,
    Rbx,
    Rcx,
    Rdi,
}

/// An instruction operand.
#[derive(Clone, Copy, PartialEq, Eq, Structural, Debug)]
pub enum Operand {
    /// A register.
    Reg(Reg),
    /// A 64-bit immediate.
    Imm(i64),
    /// The stack word `[rsp - offset]`.
    Stack(i32),
    /// The word a register points to, `[reg]`.
    Deref(Reg),
}

/// A condition of a conditional move or jump.
#[derive(Clone, Copy, PartialEq, Eq, Structural, Debug)]
pub enum Cond {
    E,
    Z,
    NZ,
    G,
    GE,
    L,
    LE,
    O,
}

/// A jump target.
#[derive(Clone, Copy, PartialEq, Eq, Structural, Debug)]
pub enum Label {
    /// The runtime's error routine.
    SnekError,
    IfElse(i32),
    IfEnd(i32),
    LoopStart(i32),
    LoopEnd(i32),
    /// A label of the in-memory assembler, by its number.
    Dynamic(u64),
}

/// An x86-64 instruction of the generated code.
#[derive(Clone, Copy, PartialEq, Eq, Structural, Debug)]
pub enum Instr {
    Mov(Operand, Operand),
    Add(Operand, Operand),
    Sub(Operand, Operand),
    IMul(Reg, Operand),
    Xor(Operand, Operand),
    Cmp(Operand, Operand),
    Test(Operand, Operand),
    Sar(Reg, i64),
    CMov(Cond, Reg, Operand),
    Jmp(Label),
    J(Cond, Label),
    /// Places a label.
    Mark(Label),
    Syscall,
    Ret,
    /// In assembly text, ends the line and indents the next one by this many
    /// spaces; it assembles to nothing.
    NewLine(u8),
}

/// The assembler name of a register.
pub open spec fn reg_text(r: Reg) -> Seq<char> {
    match r {
        Reg::Rax => "rax"@,
        Reg::Rbx => "rbx"@,
        Reg::Rcx => "rcx"@,
        Reg::Rdi => "rdi"@,
    }
}

/// The assembler text of an operand.
pub open spec fn operand_text(o: Operand) -> Seq<char> {
    match o {
        Operand::Reg(r) => reg_text(r),
        Operand::Imm(n) => decimal_of_int(n as int),
        Operand::Stack(off) => "[rsp - "@ + decimal_of_int(off as int) + "]"@,
        Operand::Deref(r) => "["@ + reg_text(r) + "]"@,
    }
}

/// The assembler suffix of a condition.
pub open spec fn cond_text(c: Cond) -> Seq<char> {
    match c {
        Cond::E => "e"@,
        Cond::Z => "z"@,
        Cond::NZ => "nz"@,
        Cond::G => "g"@,
        Cond::GE => "ge"@,
        Cond::L => "l"@,
        Cond::LE => "le"@,
        Cond::O => "o"@,
    }
}

/// The assembler name of a label.
pub open spec fn label_text(l: Label) -> Seq<char> {
    match l {
        Label::SnekError => "snek_error"@,
        Label::IfElse(n) => "if_else_"@ + decimal_of_int(n as int),
        Label::IfEnd(n) => "if_end_"@ + decimal_of_int(n as int),
        Label::LoopStart(n) => "loop_start_"@ + decimal_of_int(n as int),
        Label::LoopEnd(n) => "loop_end_"@ + decimal_of_int(n as int),
        Label::Dynamic(n) => "label_"@ + decimal_of_int(n as int),
    }
}

/// The text of a two-operand instruction; a store of an immediate into memory
/// names its size.
pub open spec fn binary_text(name: Seq<char>, d: Operand, s: Operand) -> Seq<char> {
    let size = if (d is Stack || d is Deref) && s is Imm {
        "QWORD "@
    } else {
        Seq::empty()
    };
    name + " "@ + size + operand_text(d) + ", "@ + operand_text(s)
}

/// The assembler text of one instruction.
pub open spec fn instr_text(i: Instr) -> Seq<char> {
    match i {
        Instr::Mov(d, s) => binary_text("mov"@, d, s),
        Instr::Add(d, s) => binary_text("add"@, d, s),
        Instr::Sub(d, s) => binary_text("sub"@, d, s),
        Instr::IMul(d, s) => binary_text("imul"@, Operand::Reg(d), s),
        Instr::Xor(d, s) => binary_text("xor"@, d, s),
        Instr::Cmp(d, s) => binary_text("cmp"@, d, s),
        Instr::Test(d, s) => binary_text("test"@, d, s),
        Instr::Sar(d, n) => binary_text("sar"@, Operand::Reg(d), Operand::Imm(n)),
        Instr::CMov(c, d, s) => "cmov"@ + cond_text(c) + " "@ + reg_text(d) + ", "@ + operand_text(s),
        Instr::Jmp(l) => "jmp "@ + label_text(l),
        Instr::J(c, l) => "j"@ + cond_text(c) + " "@ + label_text(l),
        Instr::Mark(l) => label_text(l) + ":"@,
        Instr::Syscall => "syscall"@,
        Instr::Ret => "ret"@,
        Instr::NewLine(k) => "\n"@ + spaces(k as nat),
    }
}

/// `k` spaces.
pub open spec fn spaces(k: nat) -> Seq<char>
    decreases k,
{
    if k == 0 {
        Seq::empty()
    } else {
        spaces((k - 1) as nat).push(' ')
    }
}

/// The text of `code`: the texts of its instructions one after another; its
/// `NewLine`s break the lines.
pub open spec fn code_text(code: Seq<Instr>) -> Seq<char>
    decreases code.len(),
{
    if code.len() == 0 {
        Seq::empty()
    } else {
        code_text(code.drop_last()) + instr_text(code.last())
    }
}

fn push_reg(out: &mut String, r: Reg)
    ensures
        final(out)@ == old(out)@ + reg_text(r),
{
    match r {
        Reg::Rax => out.append("rax"),
        Reg::Rbx => out.append("rbx"),
        Reg::Rcx => out.append("rcx"),
        Reg::Rdi => out.append("rdi"),
    }
}

fn push_decimal(out: &mut String, n: i64)
    ensures
        final(out)@ == old(out)@ + decimal_of_int(n as int),
{
    let t = i64_to_decimal(n);
    out.append(t.as_str());
}

fn push_operand(out: &mut String, o: Operand)
    ensures
        final(out)@ == old(out)@ + operand_text(o),
{
    match o {
        Operand::Reg(r) => push_reg(out, r),
        Operand::Imm(n) => push_decimal(out, n),
        Operand::Stack(off) => {
            let ghost before = out@;
            out.append("[rsp - ");
            push_decimal(out, off as i64);
            out.append("]");
            assert(out@ =~= before + operand_text(o));
        },
        Operand::Deref(r) => {
            let ghost before = out@;
            out.append("[");
            push_reg(out, r);
            out.append("]");
            assert(out@ =~= before + operand_text(o));
        },
    }
}

fn push_cond(out: &mut String, c: Cond)
    ensures
        final(out)@ == old(out)@ + cond_text(c),
{
    match c {
        Cond::E => out.append("e"),
        Cond::Z => out.append("z"),
        Cond::NZ => out.append("nz"),
        Cond::G => out.append("g"),
        Cond::GE => out.append("ge"),
        Cond::L => out.append("l"),
        Cond::LE => out.append("le"),
        Cond::O => out.append("o"),
    }
}

fn push_label(out: &mut String, l: Label)
    ensures
        final(out)@ == old(out)@ + label_text(l),
{
    let ghost before = out@;
    match l {
        Label::SnekError => out.append("snek_error"),
        Label::IfElse(n) => {
            out.append("if_else_");
            push_decimal(out, n as i64);
        },
        Label::IfEnd(n) => {
            out.append("if_end_");
            push_decimal(out, n as i64);
        },
        Label::LoopStart(n) => {
            out.append("loop_start_");
            push_decimal(out, n as i64);
        },
        Label::LoopEnd(n) => {
            out.append("loop_end_");
            push_decimal(out, n as i64);
        },
        Label::Dynamic(n) => {
            out.append("label_");
            if n <= 9223372036854775807u64 {
                push_decimal(out, n as i64);
            } else {
                let hi = i64_to_decimal((n / 10) as i64);
                out.append(hi.as_str());
                push_decimal(out, (n % 10) as i64);
                proof {
                    crate::text::lemma_decimal_split((n as int));
                }
            }
        },
    }
    assert(out@ =~= before + label_text(l));
}

fn push_binary(out: &mut String, name: &str, d: Operand, s: Operand)
    ensures
        final(out)@ == old(out)@ + binary_text(name@, d, s),
{
    let ghost before = out@;
    out.append(name);
    out.append(" ");
    let mem = match d {
        Operand::Stack(_) => true,
        Operand::Deref(_) => true,
        _ => false,
    };
    let imm = match s {
        Operand::Imm(_) => true,
        _ => false,
    };
    if mem && imm {
        out.append("QWORD ");
    }
    push_operand(out, d);
    out.append(", ");
    push_operand(out, s);
    assert(out@ =~= before + binary_text(name@, d, s));
}

/// Appends the assembler text of `i` to `out`.
pub fn push_instr(out: &mut String, i: Instr)
    ensures
        final(out)@ == old(out)@ + instr_text(i),
{
    let ghost before = out@;
    match i {
        Instr::Mov(d, s) => push_binary(out, "mov", d, s),
        Instr::Add(d, s) => push_binary(out, "add", d, s),
        Instr::Sub(d, s) => push_binary(out, "sub", d, s),
        Instr::IMul(d, s) => push_binary(out, "imul", Operand::Reg(d), s),
        Instr::Xor(d, s) => push_binary(out, "xor", d, s),
        Instr::Cmp(d, s) => push_binary(out, "cmp", d, s),
        Instr::Test(d, s) => push_binary(out, "test", d, s),
        Instr::Sar(d, n) => push_binary(out, "sar", Operand::Reg(d), Operand::Imm(n)),
        Instr::CMov(c, d, s) => {
            out.append("cmov");
            push_cond(out, c);
            out.append(" ");
            push_reg(out, d);
            out.append(", ");
            push_operand(out, s);
        },
        Instr::Jmp(l) => {
            out.append("jmp ");
            push_label(out, l);
        },
        Instr::J(c, l) => {
            out.append("j");
            push_cond(out, c);
            out.append(" ");
            push_label(out, l);
        },
        Instr::Mark(l) => {
            push_label(out, l);
            out.append(":");
        },
        Instr::Syscall => out.append("syscall"),
        Instr::Ret => out.append("ret"),
        Instr::NewLine(k) => {
            out.append("\n");
            let mut j: u8 = 0;
            while j < k
                invariant
                    j <= k,
                    out@ == before + "\n"@ + spaces(j as nat),
                decreases k - j,
            {
                proof {
                    reveal_strlit(" ");
                }
                out.append(" ");
                assert(spaces((j + 1) as nat) == spaces(j as nat).push(' '));
                assert(out@ =~= before + "\n"@ + spaces((j + 1) as nat));
                j = j + 1;
            }
        },
    }
    assert(out@ =~= before + instr_text(i));
}

/// The assembler text of `code`.
pub fn render_text(code: &Vec<Instr>) -> (t: String)
    ensures
        t@ == code_text(code@),
{
    let mut out = String::new();
    let mut k: usize = 0;
    assert(code@.take(0) =~= Seq::<Instr>::empty());
    while k < code.len()
        invariant
            k <= code@.len(),
            out@ == code_text(code@.take(k as int)),
        decreases code@.len() - k,
    {
        assert(code@.take(k + 1).drop_last() =~= code@.take(k as int));
        assert(code@.take(k + 1).last() == code@[k as int]);
        push_instr(&mut out, code[k]);
        k = k + 1;
    }
    assert(code@.take(k as int) =~= code@);
    out
}

} // verus!
