use cobra::compile::{within_limits, CompileError};
use cobra::env::Env;
use cobra::jitgen::{compile_ops, get_static_type, jit_program, Assembler, DefineValue};
use cobra::parser::parse_program;
use cobra::textgen::{compile_expr, compile_program, LabelCounters};
use cobra::x86::{render_text, Cond, Instr, Label, Operand, Reg};

const RAX: Operand = Operand::Reg(Reg::Rax);

fn fresh() -> LabelCounters {
    LabelCounters { ifs: 0, loops: 0 }
}

fn program(text: &str) -> cobra::ast::Expr {
    parse_program(text, "-c").unwrap()
}

fn exit_tail(err: u64, ok: u64) -> Vec<Instr> {
    vec![
        Instr::Jmp(Label::Dynamic(ok)),
        Instr::Mark(Label::Dynamic(err)),
        Instr::Mov(Operand::Reg(Reg::Rdi), Operand::Imm(1)),
        Instr::Mov(RAX, Operand::Imm(60)),
        Instr::Syscall,
        Instr::Mark(Label::Dynamic(ok)),
    ]
}

#[test]
fn assembly_text_of_add1_input() {
    let text = compile_program(&program("(add1 input)"), &mut fresh()).unwrap();
    assert_eq!(
        text,
        "\n        section .text\n        global our_code_starts_here\n        our_code_starts_here:\n        \
         mov rax, rdi\ntest rax, 1\njnz snek_error\nadd rax, 2\n        ret\n        "
    );
}

#[test]
fn assembly_text_of_a_sum() {
    let text = compile_program(&program("(+ 1 2)"), &mut fresh()).unwrap();
    assert_eq!(
        text,
        "\n        section .text\n        global our_code_starts_here\n        our_code_starts_here:\n        \n               mov rax, 2\n               test rax, 1\n               jnz snek_error\n               mov [rsp - 16], rax\n               mov rax, 4\n               test rax, 1\n               jnz snek_error\n               add rax, [rsp - 16]\n               jo snek_error\n            \n        ret\n        "
    );
}

#[test]
fn assembly_text_numbers_its_labels() {
    let env: Env<i32> = Env::new();
    let mut counters = LabelCounters { ifs: 0, loops: 0 };
    let code = compile_expr(&program("(if true 1 (if false 2 3))"), 2, &env, None, &mut counters)
        .unwrap();
    assert_eq!(counters, LabelCounters { ifs: 2, loops: 0 });
    let text = render_text(&code);
    assert_eq!(
        text,
        "\n               mov rax, 3\n               cmp rax, 1\n               je if_else_1\n               mov rax, 2\n               jmp if_end_1\n               if_else_1:\n               \n               mov rax, 1\n               cmp rax, 1\n               je if_else_2\n               mov rax, 4\n               jmp if_end_2\n               if_else_2:\n               mov rax, 6\n               if_end_2:\n            \n               if_end_1:\n            "
    );
    let code = compile_expr(&program("(loop (break 5))"), 2, &env, None, &mut counters).unwrap();
    assert_eq!(counters, LabelCounters { ifs: 2, loops: 1 });
    assert_eq!(
        code,
        vec![
            Instr::NewLine(15),
            Instr::Mark(Label::LoopStart(1)),
            Instr::NewLine(15),
            Instr::Mov(RAX, Operand::Imm(10)),
            Instr::NewLine(0),
            Instr::Jmp(Label::LoopEnd(1)),
            Instr::NewLine(15),
            Instr::Jmp(Label::LoopStart(1)),
            Instr::NewLine(15),
            Instr::Mark(Label::LoopEnd(1)),
            Instr::NewLine(12),
        ]
    );
    assert_eq!(
        render_text(&code),
        "\n               loop_start_1:\n               mov rax, 10\njmp loop_end_1\n               jmp loop_start_1\n               loop_end_1:\n            "
    );
}

#[test]
fn assembly_text_of_let_and_comparisons() {
    let text = compile_program(&program("(let ((x 5)) (= x true))"), &mut fresh()).unwrap();
    assert_eq!(
        text,
        "\n        section .text\n        global our_code_starts_here\n        our_code_starts_here:\n        \n                    mov rax, 10\n                    mov [rsp - 16], rax\n                \n               mov rax, [rsp - 16]\n               mov [rsp - 24], rax\n               mov rax, 3\n               mov rbx, rax\n               xor rbx, [rsp - 24]\n               test rbx, 1\n               jnz snek_error\n               cmp rax, [rsp - 24]\n               mov rax, 1\n               mov rbx, 3\n               cmove rax, rbx\n            \n        ret\n        "
    );
    let text = compile_program(&program("(isnum 1)"), &mut fresh()).unwrap();
    assert!(text.contains("mov rax, 2\ntest rax, 1\nmov rbx, 1\nmov rcx, 3\ncmovz rax, rcx\ncmovnz rax, rbx\n"));
}

#[test]
fn assembly_text_errors() {
    let e = compile_program(&program("x"), &mut fresh()).unwrap_err();
    assert_eq!(e, CompileError::Unbound("x".to_string()));
    assert_eq!(e.message(), "Unbound variable identifier x");
    let e = compile_program(&program("(set! y 1)"), &mut fresh()).unwrap_err();
    assert_eq!(e.message(), "Unbound variable identifier y");
    let e = compile_program(&program("(break 1)"), &mut fresh()).unwrap_err();
    assert_eq!(e.message(), "Invalid: break outside of loop");
    let e = compile_program(&program("(let ((add1 1)) 2)"), &mut fresh()).unwrap_err();
    assert_eq!(e.message(), "Invalid: keyword used as identifier");
    let e = compile_program(&program("4611686018427387904"), &mut fresh()).unwrap_err();
    assert_eq!(e.message(), "Invalid: number overflow");
    assert!(compile_program(&program("4611686018427387903"), &mut fresh()).is_ok());
    assert!(compile_program(&program("(add1 true)"), &mut fresh()).is_ok());
}

#[test]
fn instructions_for_the_in_memory_assembler() {
    let code = jit_program(&program("(add1 5)"), 1).unwrap();
    let mut expected = vec![
        Instr::Mov(Operand::Reg(Reg::Rdi), Operand::Imm(1)),
        Instr::Mov(RAX, Operand::Imm(10)),
        Instr::Test(RAX, Operand::Imm(1)),
        Instr::J(Cond::NZ, Label::Dynamic(0)),
        Instr::Add(RAX, Operand::Imm(2)),
    ];
    expected.extend(exit_tail(0, 1));
    expected.push(Instr::Ret);
    assert_eq!(code, expected);

    let code = jit_program(&program("(< input 3)"), 200).unwrap();
    let slot = Operand::Stack(16);
    let slot2 = Operand::Stack(24);
    let mut expected = vec![
        Instr::Mov(Operand::Reg(Reg::Rdi), Operand::Imm(200)),
        Instr::Mov(RAX, Operand::Reg(Reg::Rdi)),
        Instr::Test(RAX, Operand::Imm(1)),
        Instr::J(Cond::NZ, Label::Dynamic(0)),
        Instr::Mov(slot, RAX),
        Instr::Mov(RAX, Operand::Imm(6)),
        Instr::Test(RAX, Operand::Imm(1)),
        Instr::J(Cond::NZ, Label::Dynamic(0)),
        Instr::Mov(slot2, RAX),
        Instr::Mov(RAX, slot),
        Instr::Cmp(RAX, slot2),
        Instr::Mov(RAX, Operand::Imm(1)),
        Instr::Mov(slot, Operand::Imm(3)),
        Instr::CMov(Cond::L, Reg::Rax, slot),
    ];
    expected.extend(exit_tail(0, 1));
    expected.push(Instr::Ret);
    assert_eq!(code, expected);
}

#[test]
fn in_memory_code_of_branches_and_loops() {
    let code = jit_program(&program("(loop (if true (break 1) 2))"), 1).unwrap();
    assert_eq!(
        code,
        vec![
            Instr::Mov(Operand::Reg(Reg::Rdi), Operand::Imm(1)),
            Instr::Mark(Label::Dynamic(0)),
            Instr::Mov(RAX, Operand::Imm(3)),
            Instr::Cmp(RAX, Operand::Imm(1)),
            Instr::J(Cond::E, Label::Dynamic(2)),
            Instr::Mov(RAX, Operand::Imm(2)),
            Instr::Jmp(Label::Dynamic(1)),
            Instr::Jmp(Label::Dynamic(3)),
            Instr::Mark(Label::Dynamic(2)),
            Instr::Mov(RAX, Operand::Imm(4)),
            Instr::Mark(Label::Dynamic(3)),
            Instr::Jmp(Label::Dynamic(0)),
            Instr::Mark(Label::Dynamic(1)),
            Instr::Ret,
        ]
    );
}

#[test]
fn in_memory_code_checks_known_types() {
    assert_eq!(jit_program(&program("(add1 true)"), 1), Err(CompileError::InvalidArgument));
    assert_eq!(jit_program(&program("(* 2 false)"), 1), Err(CompileError::InvalidArgument));
    assert_eq!(jit_program(&program("(= 1 true)"), 1), Err(CompileError::InvalidArgument));
    assert!(jit_program(&program("(= true false)"), 1).is_ok());
    assert!(jit_program(&program("(isnum true)"), 1).is_ok());
    assert_eq!(jit_program(&program("(break 1)"), 1), Err(CompileError::BreakOutsideLoop));
    assert_eq!(jit_program(&program("y"), 1), Err(CompileError::Unbound("y".to_string())));
    assert!(jit_program(&program("(let ((add1 1)) add1)"), 1).is_ok());
    let code = jit_program(&program("4611686018427387904"), 1).unwrap();
    assert_eq!(code[1], Instr::Mov(RAX, Operand::Imm(i64::MIN)));
}

#[test]
fn in_memory_code_of_defined_variables() {
    let env: Env<i32> = Env::new();
    let mut defined: Env<DefineValue> = Env::new();
    defined.insert("k".to_string(), DefineValue::Known(3));
    defined.insert("c".to_string(), DefineValue::Unknown(4096));
    assert_eq!(get_static_type(&program("k"), &env, &defined), Some(true));
    assert_eq!(get_static_type(&program("c"), &env, &defined), None);
    assert_eq!(get_static_type(&program("7"), &env, &defined), Some(false));
    let mut ops = Assembler::new();
    assert_eq!(compile_ops(&program("(add1 k)"), &mut ops, 2, &env, &defined, None), Err(CompileError::InvalidArgument));
    let mut ops = Assembler::new();
    compile_ops(&program("(set! c k)"), &mut ops, 2, &env, &defined, None).unwrap();
    assert_eq!(
        ops.code,
        vec![
            Instr::Mov(RAX, Operand::Imm(3)),
            Instr::Mov(Operand::Reg(Reg::Rcx), Operand::Imm(4096)),
            Instr::Mov(Operand::Deref(Reg::Rcx), RAX),
        ]
    );
    let mut ops = Assembler::new();
    compile_ops(&program("c"), &mut ops, 2, &env, &defined, None).unwrap();
    assert_eq!(
        ops.code,
        vec![Instr::Mov(RAX, Operand::Imm(4096)), Instr::Mov(RAX, Operand::Deref(Reg::Rax))]
    );
    let mut ops = Assembler::new();
    assert_eq!(
        compile_ops(&program("(set! k 1)"), &mut ops, 2, &env, &defined, None),
        Err(CompileError::ImmutableDefine)
    );
    assert_eq!(
        CompileError::ImmutableDefine.message(),
        "Cannot set! a define'd variable that wasn't detected as mutable"
    );
}

#[test]
fn limits_of_the_compilers() {
    assert!(within_limits(&program("(let ((x 1) (y 2)) (+ x y))")));
    assert!(within_limits(&program("5")));
}

fn labels_resolve(code: &[Instr], outside: &[Label]) -> bool {
    let mut placed: Vec<Label> = Vec::new();
    for i in code {
        if let Instr::Mark(l) = i {
            if placed.contains(l) {
                return false;
            }
            placed.push(*l);
        }
    }
    code.iter().all(|i| match i {
        Instr::Jmp(l) | Instr::J(_, l) => placed.contains(l) || outside.contains(l),
        _ => true,
    })
}

#[test]
fn compiled_labels_are_placed_once_and_jumps_resolve() {
    let text = "(let ((x 0)) (block (loop (if (= x 3) (break (+ x 1)) (set! x (add1 x)))) \
                (loop (if (< x 0) (break x) (if (isnum x) (break 7) (break 8))))))";
    let e = program(text);
    let code = jit_program(&e, 5).unwrap();
    assert!(labels_resolve(&code, &[]));
    let dynamic_marks = code.iter().filter(|i| matches!(i, Instr::Mark(Label::Dynamic(_)))).count();
    assert_eq!(dynamic_marks, 18);
    let env: Env<i32> = Env::new();
    let mut counters = LabelCounters { ifs: 0, loops: 0 };
    let code = compile_expr(&e, 2, &env, None, &mut counters).unwrap();
    assert_eq!(counters, LabelCounters { ifs: 3, loops: 2 });
    assert!(labels_resolve(&code, &[Label::SnekError]));
    assert!(!labels_resolve(&code, &[]));
}

#[test]
fn add() {
    let input = cobra::values::parse_input("100").unwrap();
    assert_eq!(input, 200);
    let code = jit_program(&program("(add1 input)"), input).unwrap();
    let mut expected = vec![
        Instr::Mov(Operand::Reg(Reg::Rdi), Operand::Imm(200)),
        Instr::Mov(RAX, Operand::Reg(Reg::Rdi)),
        Instr::Test(RAX, Operand::Imm(1)),
        Instr::J(Cond::NZ, Label::Dynamic(0)),
        Instr::Add(RAX, Operand::Imm(2)),
    ];
    expected.extend(exit_tail(0, 1));
    expected.push(Instr::Ret);
    assert_eq!(code, expected);
    assert_eq!(cobra::values::format_value(input + 2), "101");
}

#[test]
fn let_bound_names_shadow_defined_types() {
    let mut env: Env<i32> = Env::new();
    env.insert("x".to_string(), 16);
    let mut defined: Env<DefineValue> = Env::new();
    defined.insert("x".to_string(), DefineValue::Known(3));
    assert_eq!(get_static_type(&program("x"), &env, &defined), None);
    let empty: Env<i32> = Env::new();
    assert_eq!(get_static_type(&program("x"), &empty, &defined), Some(true));
    let mut ops = Assembler::new();
    let e = program("(let ((x 5)) (add1 x))");
    compile_ops(&e, &mut ops, 2, &empty, &defined, None).unwrap();
    let mut expected = vec![
        Instr::Mov(RAX, Operand::Imm(10)),
        Instr::Mov(Operand::Stack(16), RAX),
        Instr::Mov(RAX, Operand::Stack(16)),
        Instr::Test(RAX, Operand::Imm(1)),
        Instr::J(Cond::NZ, Label::Dynamic(0)),
        Instr::Add(RAX, Operand::Imm(2)),
    ];
    expected.extend(exit_tail(0, 1));
    assert_eq!(ops.code, expected);
    let mut ops = Assembler::new();
    assert_eq!(
        compile_ops(&program("(+ x (let ((x 5)) x))"), &mut ops, 2, &empty, &defined, None),
        Err(CompileError::InvalidArgument)
    );
}

#[test]
fn threaded_counters_keep_labels_apart_across_compilations() {
    let env: Env<i32> = Env::new();
    let mut counters = LabelCounters { ifs: 0, loops: 0 };
    let mut all: Vec<Instr> = Vec::new();
    for text in ["(if true 1 2)", "(loop (if false (break 1) (break 2)))", "(if true (loop (break 3)) 4)"] {
        let code = compile_expr(&program(text), 2, &env, None, &mut counters).unwrap();
        all.extend(code);
    }
    assert_eq!(counters, LabelCounters { ifs: 3, loops: 2 });
    assert!(labels_resolve(&all, &[]));
    assert!(within_limits(&program("(block 1 2 3)")));
}

#[test]
fn program_text_continues_the_process_counters() {
    let mut counters = fresh();
    let first = compile_program(&program("(if true 1 2)"), &mut counters).unwrap();
    assert!(first.contains("if_else_1:"));
    let second = compile_program(&program("(if false (loop (break 3)) 4)"), &mut counters).unwrap();
    assert!(second.contains("if_else_2:") && !second.contains("if_else_1:"));
    assert!(second.contains("loop_start_1:"));
    assert_eq!(counters, LabelCounters { ifs: 2, loops: 1 });
}
