use vstd::prelude::*;
use crate::ast::{Expr, ExprV, assigns, is_set_in_expr};
use crate::compile::{compile_error_text, expr_depth, expr_size};
use crate::env::Env;
use crate::jitgen::{Assembler, DefineValue, compile_ops, jit_code};
use crate::parser::{parse_error_text, parse_program, parse_sexpr, parsed_view};
use crate::sexpr::{sexp_reading, SAtomV, SExprV};
use crate::text::{str_eq, trim_end, trimmed_end};
use crate::values::{format_value, value_text};
use crate::x86::Instr;

verus! {

/// What the prompt does with a line it has read.
#[derive(Debug, PartialEq, Eq)]
pub enum ReplStep {
    /// An empty line: read the next one.
    Skip,
    /// `quit` or `exit`: stop.
    Quit,
    /// Print this text, then read the next line.
    Print(String),
    /// Print the value in the heap cell at this address, then read the next
    /// line.
    ReadCell(i64),
    /// Compile and run the expression; for a definition whose variable some
    /// `set!` of it assigns, first give that variable a heap cell.
    Run(Expr, Option<String>),
}

/// The mathematical value of a step.
pub enum ReplStepV {
    Skip,
    Quit,
    Print(Seq<char>),
    ReadCell(i64),
    Run(ExprV, Option<Seq<char>>),
}

impl View for ReplStep {
    type V = ReplStepV;

    open spec fn view(&self) -> ReplStepV {
        match self {
            ReplStep::Skip => ReplStepV::Skip,
            ReplStep::Quit => ReplStepV::Quit,
            ReplStep::Print(t) => ReplStepV::Print(t@),
            ReplStep::ReadCell(p) => ReplStepV::ReadCell(*p),
            ReplStep::Run(e, cell) => ReplStepV::Run(
                e@,
                match cell {
                    Some(x) => Some(x@),
                    None => None,
                },
            ),
        }
    }
}

/// What the prompt does with an expression it has read: a lone name is looked
/// up among the defined variables; anything else runs.
pub open spec fn repl_expr_step(denv: Map<Seq<char>, DefineValue>, e: ExprV) -> ReplStepV {
    match e {
        ExprV::Id(x) => if denv.contains_key(x) {
            match denv[x] {
                DefineValue::Known(v) => ReplStepV::Print(value_text(v)),
                DefineValue::Unknown(p) => ReplStepV::ReadCell(p),
            }
        } else {
            ReplStepV::Print("Unbound variable identifier "@ + x)
        },
        ExprV::Define(x, body) => ReplStepV::Run(
            e,
            if assigns(x, *body) {
                Some(x)
            } else {
                None
            },
        ),
        _ => ReplStepV::Run(e, None),
    }
}

/// What the prompt does with a line, given the defined variables: the line
/// without trailing white space is skipped when empty, ends the session when
/// `quit` or `exit`, and is otherwise read as a program, whose errors are
/// printed.
pub open spec fn repl_step(denv: Map<Seq<char>, DefineValue>, line: Seq<char>, repl: bool) -> ReplStepV {
    let t = trimmed_end(line);
    if t.len() == 0 {
        ReplStepV::Skip
    } else if t == "quit"@ || t == "exit"@ {
        ReplStepV::Quit
    } else {
        match sexp_reading(t) {
            Err(m) => ReplStepV::Print(m),
            Ok(s) => match parse_sexpr(s, 0, repl).0 {
                Err(x) => ReplStepV::Print(parse_error_text(x)),
                Ok(e) => repl_expr_step(denv, e),
            },
        }
    }
}

/// What the prompt does once an expression has run.
#[derive(Debug, PartialEq, Eq)]
pub enum ReplOutcome {
    /// Print this text.
    Print(String),
    /// Store the value in the heap cell at the address; print nothing.
    StoreCell(i64, i64),
    /// The value was recorded as the variable's; print nothing.
    Stored,
}

/// The mathematical value of an outcome.
pub enum ReplOutcomeV {
    Print(Seq<char>),
    StoreCell(i64, i64),
    Stored,
}

impl View for ReplOutcome {
    type V = ReplOutcomeV;

    open spec fn view(&self) -> ReplOutcomeV {
        match self {
            ReplOutcome::Print(t) => ReplOutcomeV::Print(t@),
            ReplOutcome::StoreCell(p, v) => ReplOutcomeV::StoreCell(*p, *v),
            ReplOutcome::Stored => ReplOutcomeV::Stored,
        }
    }
}

/// What follows the run of `e`, which returned the word `result`, and the
/// defined variables after it: a definition stores the value, in the
/// variable's heap cell if it has one or else as its known value; anything
/// else prints the value.
pub open spec fn repl_finish(denv: Map<Seq<char>, DefineValue>, e: ExprV, result: i64) -> (
    ReplOutcomeV,
    Map<Seq<char>, DefineValue>,
) {
    match e {
        ExprV::Define(x, _) => if denv.contains_key(x) && denv[x] is Unknown {
            (ReplOutcomeV::StoreCell(denv[x]->Unknown_0, result), denv)
        } else {
            (ReplOutcomeV::Stored, denv.insert(x, DefineValue::Known(result)))
        },
        _ => (ReplOutcomeV::Print(value_text(result)), denv),
    }
}

/// The variables defined at the prompt, and its decisions.
pub struct Repl {
    pub define_env: Env<DefineValue>,
}

impl Repl {
    /// A prompt with no variables defined.
    pub fn new() -> (r: Self)
        ensures
            r.define_env@ == Map::<Seq<char>, DefineValue>::empty(),
    {
        Repl { define_env: Env::new() }
    }

    /// Decides what to do with a line read at the prompt; `flag` is the mode
    /// the driver runs in.
    pub fn read_line(&self, line: &str, flag: &str) -> (r: ReplStep)
        ensures
            r@ == repl_step(self.define_env@, line@, flag@ == "-i"@),
    {
        let trimmed = trim_end(line);
        if trimmed.unicode_len() == 0 {
            return ReplStep::Skip;
        }
        if str_eq(trimmed, "quit") || str_eq(trimmed, "exit") {
            return ReplStep::Quit;
        }
        let expr = match parse_program(trimmed, flag) {
            Ok(e) => e,
            Err(x) => {
                return ReplStep::Print(x.message());
            },
        };
        match &expr {
            Expr::Id(var) => {
                return match self.define_env.get(var.as_str()) {
                    Some(DefineValue::Known(val)) => ReplStep::Print(format_value(val)),
                    Some(DefineValue::Unknown(ptr)) => ReplStep::ReadCell(ptr),
                    None => {
                        let mut m = String::from_str("Unbound variable identifier ");
                        m.append(var.as_str());
                        ReplStep::Print(m)
                    },
                };
            },
            _ => {},
        }
        let cell = match &expr {
            Expr::Define(name, body) => {
                if is_set_in_expr(name.as_str(), body) {
                    Some(name.clone())
                } else {
                    None
                }
            },
            _ => None,
        };
        ReplStep::Run(expr, cell)
    }

    /// Records that the defined variable `name` lives in the heap cell at
    /// `addr`.
    pub fn declare_cell(&mut self, name: String, addr: i64)
        ensures
            final(self).define_env@ == old(self).define_env@.insert(name@, DefineValue::Unknown(addr)),
    {
        self.define_env.insert(name, DefineValue::Unknown(addr));
    }

    /// The code the prompt runs for an expression: compiled from stack slot 2
    /// with no names on the stack, the defined variables, no enclosing loop
    /// and fresh labels, then `ret`; or the text of the compile error.
    pub fn compile_line(&self, expr: &Expr) -> (r: Result<Vec<Instr>, String>)
        requires
            expr_depth(expr@) <= 268435453,
            2 * expr_size(expr@) <= u64::MAX,
        ensures
            match jit_code(expr@, 2, Map::empty(), self.define_env@, None, 0) {
                Ok((code, _)) => r matches Ok(v) && v@ == code.push(Instr::Ret),
                Err(x) => r matches Err(m) && m@ == compile_error_text(x),
            },
    {
        let mut ops = Assembler::new();
        let env: Env<i32> = Env::new();
        match compile_ops(expr, &mut ops, 2, &env, &self.define_env, None) {
            Ok(()) => {},
            Err(x) => {
                return Err(x.message());
            },
        }
        ops.emit(Instr::Ret);
        Ok(ops.code)
    }

    /// What follows the run of `expr`, which returned the word `result`; see
    /// `repl_finish`.
    pub fn finish(&mut self, expr: &Expr, result: i64) -> (o: ReplOutcome)
        ensures
            (o@, final(self).define_env@) == repl_finish(old(self).define_env@, expr@, result),
    {
        match expr {
            Expr::Define(var, _) => {
                if let Some(DefineValue::Unknown(ptr)) = self.define_env.get(var.as_str()) {
                    ReplOutcome::StoreCell(ptr, result)
                } else {
                    self.define_env.insert(var.clone(), DefineValue::Known(result));
                    ReplOutcome::Stored
                }
            },
            _ => ReplOutcome::Print(format_value(result)),
        }
    }
}


/// A defined variable reads back as the value its definition computed: after
/// the definition of `x` returns `result`, a line that reads as the name `x`
/// prints `result`, or, where `x` has a heap cell, reads the cell that the
/// definition's value was stored to.
pub proof fn law_definition_reads_back(
    denv: Map<Seq<char>, DefineValue>,
    x: Seq<char>,
    body: ExprV,
    result: i64,
    line: Seq<char>,
    repl: bool,
)
    requires
        trimmed_end(line).len() > 0,
        trimmed_end(line) != "quit"@,
        trimmed_end(line) != "exit"@,
        sexp_reading(trimmed_end(line)) == Ok::<SExprV, Seq<char>>(SExprV::Atom(SAtomV::S(x))),
        x != "true"@,
        x != "false"@,
    ensures
        ({
            let (out, denv2) = repl_finish(denv, ExprV::Define(x, Box::new(body)), result);
            match out {
                ReplOutcomeV::StoreCell(p, v) => v == result && repl_step(denv2, line, repl)
                    == ReplStepV::ReadCell(p),
                ReplOutcomeV::Stored => repl_step(denv2, line, repl) == ReplStepV::Print(
                    value_text(result),
                ),
                ReplOutcomeV::Print(_) => false,
            }
        }),
{
}

} // verus!
