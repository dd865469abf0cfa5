use cobra::ast::Expr;
use cobra::repl::{Repl, ReplOutcome, ReplStep};
use cobra::x86::{Instr, Operand, Reg};

const RAX: Operand = Operand::Reg(Reg::Rax);

/// Runs the decision logic of the prompt over some lines, standing in for
/// the machine code with the known results of constant programs.
fn session(lines: &[&str], results: &[i64]) -> Vec<String> {
    let mut repl = Repl::new();
    let mut out = Vec::new();
    let mut next_result = 0;
    for line in lines {
        match repl.read_line(line, "-i") {
            ReplStep::Skip => {}
            ReplStep::Quit => break,
            ReplStep::Print(t) => out.push(t),
            ReplStep::ReadCell(_) => out.push("<cell>".to_string()),
            ReplStep::Run(e, cell) => {
                if let Some(name) = cell {
                    repl.declare_cell(name, 4096);
                }
                match repl.compile_line(&e) {
                    Err(m) => out.push(m),
                    Ok(_) => {
                        let r = results[next_result];
                        next_result += 1;
                        if let ReplOutcome::Print(t) = repl.finish(&e, r) {
                            out.push(t);
                        }
                    }
                }
            }
        }
    }
    out
}

#[test]
fn test_simple_bools() {
    let mut repl = Repl::new();
    let step = repl.read_line("(define x true)", "-i");
    let e = match step {
        ReplStep::Run(e, None) => e,
        other => panic!("unexpected step {:?}", other),
    };
    assert_eq!(e, Expr::Define("x".to_string(), Box::new(Expr::Boolean(true))));
    assert_eq!(repl.compile_line(&e), Ok(vec![Instr::Mov(RAX, Operand::Imm(3)), Instr::Ret]));
    assert_eq!(repl.finish(&e, 3), ReplOutcome::Stored);
    assert_eq!(repl.read_line("x", "-i"), ReplStep::Print("true".to_string()));
    let e = match repl.read_line("false", "-i") {
        ReplStep::Run(e, None) => e,
        other => panic!("unexpected step {:?}", other),
    };
    assert_eq!(repl.compile_line(&e), Ok(vec![Instr::Mov(RAX, Operand::Imm(1)), Instr::Ret]));
    assert_eq!(repl.finish(&e, 1), ReplOutcome::Print("false".to_string()));
}

#[test]
fn prompt_session_output() {
    assert_eq!(
        session(&["(define x true)", "x", "false"], &[3, 1]),
        vec!["true".to_string(), "false".to_string()]
    );
    assert_eq!(
        session(&["", "   ", "y", "(define y 5)", "y", "(+ y 1)", "quit", "7"], &[10, 12]),
        vec!["Unbound variable identifier y".to_string(), "5".to_string(), "6".to_string()]
    );
}

#[test]
fn prompt_reports_errors_and_goes_on() {
    assert_eq!(
        session(&["(1 2", "(block)", "(break 1)", "(let ((x 1) (x 2)) x)", "exit"], &[]),
        vec![
            "1:3: unexpected eof".to_string(),
            "Invalid: parse error".to_string(),
            "Invalid: break outside of loop".to_string(),
            "Duplicate binding".to_string(),
        ]
    );
}

#[test]
fn prompt_gives_assigned_definitions_a_cell() {
    let mut repl = Repl::new();
    let e = match repl.read_line("(define c (block (set! c 2) 1))", "-i") {
        ReplStep::Run(e, Some(name)) => {
            assert_eq!(name, "c");
            repl.declare_cell(name, 4096);
            e
        }
        other => panic!("unexpected step {:?}", other),
    };
    let code = repl.compile_line(&e).unwrap();
    assert_eq!(
        code,
        vec![
            Instr::Mov(RAX, Operand::Imm(4)),
            Instr::Mov(Operand::Reg(Reg::Rcx), Operand::Imm(4096)),
            Instr::Mov(Operand::Deref(Reg::Rcx), RAX),
            Instr::Mov(RAX, Operand::Imm(2)),
            Instr::Ret,
        ]
    );
    assert_eq!(repl.finish(&e, 2), ReplOutcome::StoreCell(4096, 2));
    assert_eq!(repl.read_line("c", "-i"), ReplStep::ReadCell(4096));
    assert_eq!(repl.read_line("(define d 1)", "-i"), ReplStep::Run(
        Expr::Define("d".to_string(), Box::new(Expr::Number(1))),
        None,
    ));
    assert_eq!(repl.read_line("(define d 1)", "-c"), ReplStep::Print("Invalid: parse error".to_string()));
}
