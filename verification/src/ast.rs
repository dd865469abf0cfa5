use vstd::prelude::*;
use crate::text::str_eq;

verus! {

broadcast use vstd::std_specs::vec::axiom_vec_index_decreases;

/// Unary operators.
#[derive(Clone, Copy, PartialEq, Eq, Structural, Debug)]
pub enum Op1 {
    Add1,
    Sub1,
    IsNum,
    IsBool,
}

/// Binary operators.
#[derive(Clone, Copy, PartialEq, Eq, Structural, Debug)]
pub enum Op2 {
    Plus,
    Minus,
    Times,
    Equal,
    Greater,
    GreaterEqual,
    Less,
    LessEqual,
}

/// Expressions of the source language.
#[derive(Debug, PartialEq, Eq)]
pub enum Expr {
    Number(i64),
    Boolean(bool),
    Id(String),
    Let(Vec<(String, Expr)>, Box<Expr>),
    UnOp(Op1, Box<Expr>),
    BinOp(Op2, Box<Expr>, Box<Expr>),
    If(Box<Expr>, Box<Expr>, Box<Expr>),
    Loop(Box<Expr>),
    Break(Box<Expr>),
    Assign(String, Box<Expr>),
    Block(Vec<Expr>),
    Define(String, Box<Expr>),
}

/// The mathematical value of an expression: names are character sequences.
pub enum ExprV {
    Number(i64),
    Boolean(bool),
    Id(Seq<char>),
    Let(Seq<(Seq<char>, ExprV)>, Box<ExprV>),
    UnOp(Op1, Box<ExprV>),
    BinOp(Op2, Box<ExprV>, Box<ExprV>),
    If(Box<ExprV>, Box<ExprV>, Box<ExprV>),
    Loop(Box<ExprV>),
    Break(Box<ExprV>),
    Assign(Seq<char>, Box<ExprV>),
    Block(Seq<ExprV>),
    Define(Seq<char>, Box<ExprV>),
}

/// The value of an expression.
pub open spec fn expr_view(e: Expr) -> ExprV
    decreases e,
{
    match e {
        Expr::Number(n) => ExprV::Number(n),
        Expr::Boolean(b) => ExprV::Boolean(b),
        Expr::Id(x) => ExprV::Id(x@),
        Expr::Let(bs, body) => ExprV::Let(bindings_view(bs@), Box::new(expr_view(*body))),
        Expr::UnOp(op, e1) => ExprV::UnOp(op, Box::new(expr_view(*e1))),
        Expr::BinOp(op, e1, e2) => ExprV::BinOp(
            op,
            Box::new(expr_view(*e1)),
            Box::new(expr_view(*e2)),
        ),
        Expr::If(c, t, f) => ExprV::If(
            Box::new(expr_view(*c)),
            Box::new(expr_view(*t)),
            Box::new(expr_view(*f)),
        ),
        Expr::Loop(b) => ExprV::Loop(Box::new(expr_view(*b))),
        Expr::Break(b) => ExprV::Break(Box::new(expr_view(*b))),
        Expr::Assign(x, e1) => ExprV::Assign(x@, Box::new(expr_view(*e1))),
        Expr::Block(es) => ExprV::Block(exprs_view(es@)),
        Expr::Define(x, e1) => ExprV::Define(x@, Box::new(expr_view(*e1))),
    }
}

/// The values of a sequence of expressions.
pub open spec fn exprs_view(es: Seq<Expr>) -> Seq<ExprV>
    decreases es,
{
    if es.len() == 0 {
        Seq::empty()
    } else {
        exprs_view(es.drop_last()).push(expr_view(es.last()))
    }
}

/// The values of a sequence of `let` bindings.
pub open spec fn bindings_view(bs: Seq<(String, Expr)>) -> Seq<(Seq<char>, ExprV)>
    decreases bs,
{
    if bs.len() == 0 {
        Seq::empty()
    } else {
        bindings_view(bs.drop_last()).push((bs.last().0@, expr_view(bs.last().1)))
    }
}

impl View for Expr {
    type V = ExprV;

    open spec fn view(&self) -> ExprV {
        expr_view(*self)
    }
}

/// The views of a sequence of expressions are taken item by item.
pub proof fn lemma_exprs_view(es: Seq<Expr>)
    ensures
        exprs_view(es).len() == es.len(),
        forall|i: int| 0 <= i < es.len() ==> #[trigger] exprs_view(es)[i] == expr_view(es[i]),
    decreases es.len(),
{
    if es.len() > 0 {
        lemma_exprs_view(es.drop_last());
    }
}

/// The views of a sequence of bindings are taken binding by binding.
pub proof fn lemma_bindings_view(bs: Seq<(String, Expr)>)
    ensures
        bindings_view(bs).len() == bs.len(),
        forall|i: int|
            0 <= i < bs.len() ==> #[trigger] bindings_view(bs)[i] == (bs[i].0@, expr_view(bs[i].1)),
    decreases bs.len(),
{
    if bs.len() > 0 {
        lemma_bindings_view(bs.drop_last());
    }
}

/// The reserved words of the language, which no `let` may bind.
pub open spec fn spec_is_keyword(name: Seq<char>) -> bool {
    ||| name == "true"@
    ||| name == "false"@
    ||| name == "input"@
    ||| name == "let"@
    ||| name == "add1"@
    ||| name == "sub1"@
    ||| name == "isnum"@
    ||| name == "isbool"@
    ||| name == "if"@
    ||| name == "block"@
    ||| name == "loop"@
    ||| name == "break"@
    ||| name == "set!"@
    ||| name == "+"@
    ||| name == "-"@
    ||| name == "*"@
    ||| name == "<"@
    ||| name == ">"@
    ||| name == ">="@
    ||| name == "<="@
    ||| name == "="@
}

/// Whether `name` is a reserved word.
pub fn is_keyword(name: &str) -> (r: bool)
    ensures
        r == spec_is_keyword(name@),
{
    str_eq(name, "true") || str_eq(name, "false") || str_eq(name, "input") || str_eq(name, "let")
        || str_eq(name, "add1") || str_eq(name, "sub1") || str_eq(name, "isnum") || str_eq(
        name,
        "isbool",
    ) || str_eq(name, "if") || str_eq(name, "block") || str_eq(name, "loop") || str_eq(
        name,
        "break",
    ) || str_eq(name, "set!") || str_eq(name, "+") || str_eq(name, "-") || str_eq(name, "*")
        || str_eq(name, "<") || str_eq(name, ">") || str_eq(name, ">=") || str_eq(name, "<=")
        || str_eq(name, "=")
}

/// Whether some `set!` inside `e` assigns the variable `x`.
pub open spec fn assigns(x: Seq<char>, e: ExprV) -> bool
    decreases e,
{
    match e {
        ExprV::Assign(name, e1) => name == x || assigns(x, *e1),
        ExprV::UnOp(_, e1) => assigns(x, *e1),
        ExprV::BinOp(_, e1, e2) => assigns(x, *e1) || assigns(x, *e2),
        ExprV::If(c, t, f) => assigns(x, *c) || assigns(x, *t) || assigns(x, *f),
        ExprV::Let(bs, body) => bindings_assign(x, bs) || assigns(x, *body),
        ExprV::Loop(b) => assigns(x, *b),
        ExprV::Break(b) => assigns(x, *b),
        ExprV::Block(es) => exprs_assign(x, es),
        ExprV::Define(_, e1) => assigns(x, *e1),
        _ => false,
    }
}

/// Whether some expression of `es` assigns `x`.
pub open spec fn exprs_assign(x: Seq<char>, es: Seq<ExprV>) -> bool
    decreases es,
{
    if es.len() == 0 {
        false
    } else {
        exprs_assign(x, es.drop_last()) || assigns(x, es.last())
    }
}

/// Whether some bound expression of `bs` assigns `x`.
pub open spec fn bindings_assign(x: Seq<char>, bs: Seq<(Seq<char>, ExprV)>) -> bool
    decreases bs,
{
    if bs.len() == 0 {
        false
    } else {
        bindings_assign(x, bs.drop_last()) || assigns(x, bs.last().1)
    }
}

/// Whether some `set!` inside `expr` assigns the variable `var_name`.
pub fn is_set_in_expr(var_name: &str, expr: &Expr) -> (r: bool)
    ensures
        r == assigns(var_name@, expr@),
    decreases expr,
{
    match expr {
        Expr::Assign(name, e) => str_eq(name.as_str(), var_name) || is_set_in_expr(var_name, e),
        Expr::UnOp(_, e) => is_set_in_expr(var_name, e),
        Expr::BinOp(_, e1, e2) => is_set_in_expr(var_name, e1) || is_set_in_expr(var_name, e2),
        Expr::If(cond, thn, els) => {
            is_set_in_expr(var_name, cond) || is_set_in_expr(var_name, thn) || is_set_in_expr(
                var_name,
                els,
            )
        },
        Expr::Let(bindings, body) => {
            let ghost bv = bindings_view(bindings@);
            proof {
                lemma_bindings_view(bindings@);
            }
            let mut found = false;
            let mut i: usize = 0;
            assert(bv.take(0) =~= Seq::<(Seq<char>, ExprV)>::empty());
            while i < bindings.len()
                invariant
                    i <= bindings@.len(),
                    bv.len() == bindings@.len(),
                    forall|k: int| 0 <= k < bindings@.len() ==> #[trigger] bv[k] == (
                        bindings@[k].0@,
                        bindings@[k].1@,
                    ),
                    found == bindings_assign(var_name@, bv.take(i as int)),
                    *expr == Expr::Let(*bindings, *body),
                decreases bindings@.len() - i,
            {
                proof {
                    assert(decreases_to!(*expr => (*expr)->Let_0));
                    assert(decreases_to!(*bindings => bindings[i as int]));
                    assert(decreases_to!(bindings[i as int] => bindings[i as int].1));
                    assert(decreases_to!(*expr => bindings[i as int].1));
                }
                assert(bv.take(i + 1).drop_last() =~= bv.take(i as int));
                assert(bv.take(i + 1).last() == bv[i as int]);
                let b = is_set_in_expr(var_name, &bindings[i].1);
                found = found || b;
                i = i + 1;
            }
            assert(bv.take(i as int) =~= bv);
            found || is_set_in_expr(var_name, body)
        },
        Expr::Loop(body) => is_set_in_expr(var_name, body),
        Expr::Break(e) => is_set_in_expr(var_name, e),
        Expr::Block(exprs) => {
            let ghost ev = exprs_view(exprs@);
            proof {
                lemma_exprs_view(exprs@);
            }
            let mut found = false;
            let mut i: usize = 0;
            assert(ev.take(0) =~= Seq::<ExprV>::empty());
            while i < exprs.len()
                invariant
                    i <= exprs@.len(),
                    ev.len() == exprs@.len(),
                    forall|k: int| 0 <= k < exprs@.len() ==> #[trigger] ev[k] == exprs@[k]@,
                    found == exprs_assign(var_name@, ev.take(i as int)),
                    *expr == Expr::Block(*exprs),
                decreases exprs@.len() - i,
            {
                proof {
                    assert(decreases_to!(*expr => (*expr)->Block_0));
                    assert(decreases_to!(*exprs => exprs[i as int]));
                    assert(decreases_to!(*expr => exprs[i as int]));
                }
                assert(ev.take(i + 1).drop_last() =~= ev.take(i as int));
                assert(ev.take(i + 1).last() == ev[i as int]);
                let b = is_set_in_expr(var_name, &exprs[i]);
                found = found || b;
                i = i + 1;
            }
            assert(ev.take(i as int) =~= ev);
            found
        },
        Expr::Define(_, e) => is_set_in_expr(var_name, e),
        _ => false,
    }
}

} // verus!
