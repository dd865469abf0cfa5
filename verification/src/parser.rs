use vstd::prelude::*;
use crate::ast::{Expr, ExprV, Op1, Op2};
use crate::sexpr::{
    read_sexpr, sexp_reading, SAtom, SAtomV, SExpr, SExprV, sexp_list_text, sexprs_view, lemma_sexprs_view, sexpr_list_text,
};
use crate::ast::{bindings_view, exprs_view};
use crate::text::str_eq;

verus! {

broadcast use vstd::std_specs::vec::axiom_vec_index_decreases;

/// Why a text is not a program.
#[derive(Debug, PartialEq, Eq)]
pub enum ParseError {
    /// The text is no s-expression; the reader's message.
    Syntax(String),
    /// The s-expression is no expression of the language.
    Invalid,
    /// A `let` binds the same name twice.
    DuplicateBinding,
    /// A `let` binding is a list that is not a name and an expression; the
    /// list's own text.
    InvalidBindingPair(String),
    /// A `let` binding is not a list.
    BindingNotList,
}

/// The mathematical value of a parse error.
pub enum ParseErrorV {
    Syntax(Seq<char>),
    Invalid,
    DuplicateBinding,
    InvalidBindingPair(Seq<char>),
    BindingNotList,
}

impl View for ParseError {
    type V = ParseErrorV;

    open spec fn view(&self) -> ParseErrorV {
        match self {
            ParseError::Syntax(m) => ParseErrorV::Syntax(m@),
            ParseError::Invalid => ParseErrorV::Invalid,
            ParseError::DuplicateBinding => ParseErrorV::DuplicateBinding,
            ParseError::InvalidBindingPair(t) => ParseErrorV::InvalidBindingPair(t@),
            ParseError::BindingNotList => ParseErrorV::BindingNotList,
        }
    }
}

/// The value of a parse outcome.
pub open spec fn parsed_view(r: Result<Expr, ParseError>) -> Result<ExprV, ParseErrorV> {
    match r {
        Ok(e) => Ok(e@),
        Err(x) => Err(x@),
    }
}

/// The name of a symbol atom.
pub open spec fn atom_symbol(s: SExprV) -> Option<Seq<char>> {
    match s {
        SExprV::Atom(SAtomV::S(x)) => Some(x),
        _ => None,
    }
}

/// The unary operator a word names.
pub open spec fn spec_op1(op: Seq<char>) -> Option<Op1> {
    if op == "add1"@ {
        Some(Op1::Add1)
    } else if op == "sub1"@ {
        Some(Op1::Sub1)
    } else if op == "isnum"@ {
        Some(Op1::IsNum)
    } else if op == "isbool"@ {
        Some(Op1::IsBool)
    } else {
        None
    }
}

/// The binary operator a word names.
pub open spec fn spec_op2(op: Seq<char>) -> Option<Op2> {
    if op == "+"@ {
        Some(Op2::Plus)
    } else if op == "-"@ {
        Some(Op2::Minus)
    } else if op == "*"@ {
        Some(Op2::Times)
    } else if op == "="@ {
        Some(Op2::Equal)
    } else if op == ">"@ {
        Some(Op2::Greater)
    } else if op == ">="@ {
        Some(Op2::GreaterEqual)
    } else if op == "<"@ {
        Some(Op2::Less)
    } else if op == "<="@ {
        Some(Op2::LessEqual)
    } else {
        None
    }
}

/// Whether a binding of `x` is among `bs`.
pub open spec fn binds(bs: Seq<(Seq<char>, ExprV)>, x: Seq<char>) -> bool {
    exists|i: int| 0 <= i < bs.len() && #[trigger] bs[i].0 == x
}

/// The expression an s-expression denotes, read left to right. `cnt` counts the
/// `define` forms met so far; a program may hold one, and only at the prompt
/// (`repl`). The second component is the count after reading.
pub open spec fn parse_sexpr(s: SExprV, cnt: int, repl: bool) -> (Result<ExprV, ParseErrorV>, int)
    decreases s,
{
    match s {
        SExprV::Atom(SAtomV::I(n)) => (Ok(ExprV::Number(n)), cnt),
        SExprV::Atom(SAtomV::S(x)) => (
            Ok(
                if x == "true"@ {
                    ExprV::Boolean(true)
                } else if x == "false"@ {
                    ExprV::Boolean(false)
                } else {
                    ExprV::Id(x)
                },
            ),
            cnt,
        ),
        SExprV::Atom(SAtomV::F(_)) => (Err(ParseErrorV::Invalid), cnt),
        SExprV::List(v) => parse_form(v, cnt, repl),
    }
}

/// The expression a list form denotes; see `parse_sexpr`.
pub open spec fn parse_form(v: Seq<SExprV>, cnt: int, repl: bool) -> (
    Result<ExprV, ParseErrorV>,
    int,
)
    decreases v, 0int,
{
    if v.len() == 0 {
        (Err(ParseErrorV::Invalid), cnt)
    } else {
        match atom_symbol(v[0]) {
            None => (Err(ParseErrorV::Invalid), cnt),
            Some(op) => {
                if v.len() == 2 && spec_op1(op) is Some {
                    let (r, c) = parse_sexpr(v[1], cnt, repl);
                    (
                        match r {
                            Ok(e) => Ok(ExprV::UnOp(spec_op1(op)->0, Box::new(e))),
                            Err(x) => Err(x),
                        },
                        c,
                    )
                } else if v.len() == 3 && spec_op2(op) is Some {
                    let (r1, c1) = parse_sexpr(v[1], cnt, repl);
                    match r1 {
                        Err(x) => (Err(x), c1),
                        Ok(e1) => {
                            let (r2, c2) = parse_sexpr(v[2], c1, repl);
                            (
                                match r2 {
                                    Ok(e2) => Ok(
                                        ExprV::BinOp(spec_op2(op)->0, Box::new(e1), Box::new(e2)),
                                    ),
                                    Err(x) => Err(x),
                                },
                                c2,
                            )
                        },
                    }
                } else if op == "if"@ && v.len() == 4 {
                    let (r1, c1) = parse_sexpr(v[1], cnt, repl);
                    match r1 {
                        Err(x) => (Err(x), c1),
                        Ok(e1) => {
                            let (r2, c2) = parse_sexpr(v[2], c1, repl);
                            match r2 {
                                Err(x) => (Err(x), c2),
                                Ok(e2) => {
                                    let (r3, c3) = parse_sexpr(v[3], c2, repl);
                                    (
                                        match r3 {
                                            Ok(e3) => Ok(
                                                ExprV::If(Box::new(e1), Box::new(e2), Box::new(e3)),
                                            ),
                                            Err(x) => Err(x),
                                        },
                                        c3,
                                    )
                                },
                            }
                        },
                    }
                } else if (op == "loop"@ || op == "break"@) && v.len() == 2 {
                    let (r, c) = parse_sexpr(v[1], cnt, repl);
                    (
                        match r {
                            Ok(e) => Ok(
                                if op == "loop"@ {
                                    ExprV::Loop(Box::new(e))
                                } else {
                                    ExprV::Break(Box::new(e))
                                },
                            ),
                            Err(x) => Err(x),
                        },
                        c,
                    )
                } else if op == "set!"@ && v.len() == 3 && atom_symbol(v[1]) is Some {
                    let (r, c) = parse_sexpr(v[2], cnt, repl);
                    (
                        match r {
                            Ok(e) => Ok(ExprV::Assign(atom_symbol(v[1])->0, Box::new(e))),
                            Err(x) => Err(x),
                        },
                        c,
                    )
                } else if op == "block"@ {
                    if v.len() == 1 {
                        (Err(ParseErrorV::Invalid), cnt)
                    } else {
                        let (r, c) = parse_items(v.skip(1), cnt, repl);
                        (
                            match r {
                                Ok(es) => Ok(ExprV::Block(es)),
                                Err(x) => Err(x),
                            },
                            c,
                        )
                    }
                } else if op == "define"@ && v.len() == 3 && atom_symbol(v[1]) is Some {
                    let c1 = if cnt < i64::MAX {
                        cnt + 1
                    } else {
                        cnt
                    };
                    if c1 > 1 || !repl {
                        (Err(ParseErrorV::Invalid), c1)
                    } else {
                        let (r, c) = parse_sexpr(v[2], c1, repl);
                        (
                            match r {
                                Ok(e) => Ok(ExprV::Define(atom_symbol(v[1])->0, Box::new(e))),
                                Err(x) => Err(x),
                            },
                            c,
                        )
                    }
                } else if op == "let"@ && v.len() == 3 && v[1] is List {
                    proof {
                        assert(decreases_to!(v[1] => v[1]->List_0));
                    }
                    let (rb, cb) = parse_bindings(v[1]->List_0, cnt, repl);
                    match rb {
                        Err(x) => (Err(x), cb),
                        Ok(bs) => {
                            let (r, c) = parse_sexpr(v[2], cb, repl);
                            (
                                match r {
                                    Ok(e) => Ok(ExprV::Let(bs, Box::new(e))),
                                    Err(x) => Err(x),
                                },
                                c,
                            )
                        },
                    }
                } else {
                    (Err(ParseErrorV::Invalid), cnt)
                }
            },
        }
    }
}

/// The expressions of a sequence of forms, read left to right; the first
/// error stops the reading.
pub open spec fn parse_items(items: Seq<SExprV>, cnt: int, repl: bool) -> (
    Result<Seq<ExprV>, ParseErrorV>,
    int,
)
    decreases items, 0int,
{
    if items.len() == 0 {
        (Ok(Seq::empty()), cnt)
    } else {
        let (rp, cp) = parse_items(items.drop_last(), cnt, repl);
        match rp {
            Err(x) => (Err(x), cp),
            Ok(pre) => {
                let (r, c) = parse_sexpr(items.last(), cp, repl);
                (
                    match r {
                        Ok(e) => Ok(pre.push(e)),
                        Err(x) => Err(x),
                    },
                    c,
                )
            },
        }
    }
}

/// The bindings of a `let`, read left to right: each must be a list of a
/// name, not bound before in the same `let`, and an expression.
pub open spec fn parse_bindings(bs: Seq<SExprV>, cnt: int, repl: bool) -> (
    Result<Seq<(Seq<char>, ExprV)>, ParseErrorV>,
    int,
)
    decreases bs, 0int,
{
    if bs.len() == 0 {
        (Ok(Seq::empty()), cnt)
    } else {
        let (rp, cp) = parse_bindings(bs.drop_last(), cnt, repl);
        match rp {
            Err(x) => (Err(x), cp),
            Ok(pre) => match bs.last() {
                SExprV::Atom(_) => (Err(ParseErrorV::BindingNotList), cp),
                SExprV::List(pair) => {
                    if pair.len() == 2 && atom_symbol(pair[0]) is Some {
                        let name = atom_symbol(pair[0])->0;
                        if binds(pre, name) {
                            (Err(ParseErrorV::DuplicateBinding), cp)
                        } else {
                            proof {
                                assert(decreases_to!(bs => bs.last()));
                                assert(decreases_to!(bs.last() => pair));
                            }
                            let (r, c) = parse_sexpr(pair[1], cp, repl);
                            (
                                match r {
                                    Ok(e) => Ok(pre.push((name, e))),
                                    Err(x) => Err(x),
                                },
                                c,
                            )
                        }
                    } else {
                        (Err(ParseErrorV::InvalidBindingPair(sexp_list_text(pair))), cp)
                    }
                },
            },
        }
    }
}


/// Once a prefix of the forms fails to read, reading all of them fails the
/// same way.
proof fn lemma_items_error_persists(items: Seq<SExprV>, k: int, cnt: int, repl: bool)
    requires
        0 <= k <= items.len(),
        parse_items(items.take(k), cnt, repl).0 is Err,
    ensures
        parse_items(items, cnt, repl) == parse_items(items.take(k), cnt, repl),
{
    let f = |t: Seq<SExprV>| parse_items(t, cnt, repl);
    let failed = |r: (Result<Seq<ExprV>, ParseErrorV>, int)| r.0 is Err;
    assert forall|t: Seq<SExprV>| 0 < t.len() && #[trigger] failed(f(t.drop_last())) implies f(t) == f(
        t.drop_last(),
    ) by {}
    crate::prefix::lemma_failure_persists(f, failed, items, k);
}

/// Once a prefix of the bindings fails to read, reading all of them fails the
/// same way.
proof fn lemma_bindings_error_persists(bs: Seq<SExprV>, k: int, cnt: int, repl: bool)
    requires
        0 <= k <= bs.len(),
        parse_bindings(bs.take(k), cnt, repl).0 is Err,
    ensures
        parse_bindings(bs, cnt, repl) == parse_bindings(bs.take(k), cnt, repl),
{
    let f = |t: Seq<SExprV>| parse_bindings(t, cnt, repl);
    let failed = |r: (Result<Seq<(Seq<char>, ExprV)>, ParseErrorV>, int)| r.0 is Err;
    assert forall|t: Seq<SExprV>| 0 < t.len() && #[trigger] failed(f(t.drop_last())) implies f(t) == f(
        t.drop_last(),
    ) by {}
    crate::prefix::lemma_failure_persists(f, failed, bs, k);
}

/// The text that reports a parse error.
pub open spec fn parse_error_text(e: ParseErrorV) -> Seq<char> {
    match e {
        ParseErrorV::Syntax(m) => m,
        ParseErrorV::Invalid => "Invalid: parse error"@,
        ParseErrorV::DuplicateBinding => "Duplicate binding"@,
        ParseErrorV::InvalidBindingPair(t) => "Invalid binding pair: "@ + t,
        ParseErrorV::BindingNotList => "Each binding should be a list"@,
    }
}

impl ParseError {
    /// The text that reports this error.
    pub fn message(&self) -> (m: String)
        ensures
            m@ == parse_error_text(self@),
    {
        match self {
            ParseError::Syntax(t) => t.clone(),
            ParseError::Invalid => String::from_str("Invalid: parse error"),
            ParseError::DuplicateBinding => String::from_str("Duplicate binding"),
            ParseError::InvalidBindingPair(t) => {
                let mut m = String::from_str("Invalid binding pair: ");
                m.append(t.as_str());
                m
            },
            ParseError::BindingNotList => String::from_str("Each binding should be a list"),
        }
    }
}

/// The name of a symbol atom.
fn atom_symbol_of(s: &SExpr) -> (r: Option<&String>)
    ensures
        match r {
            Some(x) => atom_symbol(s@) == Some(x@),
            None => atom_symbol(s@) is None,
        },
{
    match s {
        SExpr::Atom(SAtom::S(x)) => Some(x),
        _ => None,
    }
}

/// The unary operator a word names.
fn op1_of(op: &str) -> (r: Option<Op1>)
    ensures
        r == spec_op1(op@),
{
    if str_eq(op, "add1") {
        Some(Op1::Add1)
    } else if str_eq(op, "sub1") {
        Some(Op1::Sub1)
    } else if str_eq(op, "isnum") {
        Some(Op1::IsNum)
    } else if str_eq(op, "isbool") {
        Some(Op1::IsBool)
    } else {
        None
    }
}

/// The binary operator a word names.
fn op2_of(op: &str) -> (r: Option<Op2>)
    ensures
        r == spec_op2(op@),
{
    if str_eq(op, "+") {
        Some(Op2::Plus)
    } else if str_eq(op, "-") {
        Some(Op2::Minus)
    } else if str_eq(op, "*") {
        Some(Op2::Times)
    } else if str_eq(op, "=") {
        Some(Op2::Equal)
    } else if str_eq(op, ">") {
        Some(Op2::Greater)
    } else if str_eq(op, ">=") {
        Some(Op2::GreaterEqual)
    } else if str_eq(op, "<") {
        Some(Op2::Less)
    } else if str_eq(op, "<=") {
        Some(Op2::LessEqual)
    } else {
        None
    }
}

/// Whether `name` is already bound in `out`.
fn has_binding(out: &Vec<(String, Expr)>, name: &String) -> (r: bool)
    ensures
        r == binds(bindings_view(out@), name@),
{
    proof {
        crate::ast::lemma_bindings_view(out@);
    }
    let mut i: usize = 0;
    while i < out.len()
        invariant
            i <= out@.len(),
            bindings_view(out@).len() == out@.len(),
            forall|k: int| 0 <= k < out@.len() ==> #[trigger] bindings_view(out@)[k] == (
                out@[k].0@,
                crate::ast::expr_view(out@[k].1),
            ),
            forall|k: int| 0 <= k < i ==> bindings_view(out@)[k].0 != name@,
        decreases out@.len() - i,
    {
        if out[i].0 == *name {
            assert(bindings_view(out@)[i as int].0 == name@);
            return true;
        }
        i = i + 1;
    }
    false
}


/// Reads the expression that an s-expression denotes. `define_cnt` counts the
/// `define` forms met; one is allowed, and only when `flag` is `-i` (the
/// prompt). The reading and its errors are exactly `parse_sexpr`.
#[verifier::loop_isolation(false)]
pub fn parse_expr(s: &SExpr, define_cnt: &mut i64, flag: &str) -> (r: Result<Expr, ParseError>)
    ensures
        (parsed_view(r), *final(define_cnt) as int) == parse_sexpr(
            s@,
            *old(define_cnt) as int,
            flag@ == "-i"@,
        ),
        r is Ok ==> *final(define_cnt) == *old(define_cnt) + defines(r.unwrap()@),
        r is Ok ==> *final(define_cnt) == *old(define_cnt) || *final(define_cnt) <= 1,
    decreases s,
{
    let ghost c0: int = *define_cnt as int;
    let ghost repl: bool = flag@ == "-i"@;
    proof {
        lemma_parse_sexpr_keeps(s@, c0, repl);
    }
    match s {
        SExpr::Atom(SAtom::I(n)) => Ok(Expr::Number(*n)),
        SExpr::Atom(SAtom::S(n)) => {
            if str_eq(n.as_str(), "true") {
                Ok(Expr::Boolean(true))
            } else if str_eq(n.as_str(), "false") {
                Ok(Expr::Boolean(false))
            } else {
                Ok(Expr::Id(n.clone()))
            }
        },
        SExpr::Atom(SAtom::F(_)) => Err(ParseError::Invalid),
        SExpr::List(v) => {
            let ghost sv = sexprs_view(v@);
            proof {
                lemma_sexprs_view(v@);
                assert(decreases_to!(*s => (*s)->List_0));
                assert forall|k: int| 0 <= k < v.len() implies decreases_to!(*s => #[trigger] v[k]) by {
                    assert(decreases_to!(*v => v[k]));
                }
            }
            let n = v.len();
            if n == 0 {
                return Err(ParseError::Invalid);
            }
            let op = match atom_symbol_of(&v[0]) {
                Some(op) => op,
                None => {
                    return Err(ParseError::Invalid);
                },
            };
            if n == 2 {
                if let Some(o) = op1_of(op.as_str()) {
                    return match parse_expr(&v[1], define_cnt, flag) {
                        Ok(e) => Ok(Expr::UnOp(o, Box::new(e))),
                        Err(x) => Err(x),
                    };
                }
            }
            if n == 3 {
                if let Some(o) = op2_of(op.as_str()) {
                    let e1 = match parse_expr(&v[1], define_cnt, flag) {
                        Ok(e) => e,
                        Err(x) => {
                            return Err(x);
                        },
                    };
                    return match parse_expr(&v[2], define_cnt, flag) {
                        Ok(e2) => Ok(Expr::BinOp(o, Box::new(e1), Box::new(e2))),
                        Err(x) => Err(x),
                    };
                }
            }
            if n == 4 && str_eq(op.as_str(), "if") {
                let e1 = match parse_expr(&v[1], define_cnt, flag) {
                    Ok(e) => e,
                    Err(x) => {
                        return Err(x);
                    },
                };
                let e2 = match parse_expr(&v[2], define_cnt, flag) {
                    Ok(e) => e,
                    Err(x) => {
                        return Err(x);
                    },
                };
                return match parse_expr(&v[3], define_cnt, flag) {
                    Ok(e3) => Ok(Expr::If(Box::new(e1), Box::new(e2), Box::new(e3))),
                    Err(x) => Err(x),
                };
            }
            if n == 2 && str_eq(op.as_str(), "loop") {
                return match parse_expr(&v[1], define_cnt, flag) {
                    Ok(e) => Ok(Expr::Loop(Box::new(e))),
                    Err(x) => Err(x),
                };
            }
            if n == 2 && str_eq(op.as_str(), "break") {
                return match parse_expr(&v[1], define_cnt, flag) {
                    Ok(e) => Ok(Expr::Break(Box::new(e))),
                    Err(x) => Err(x),
                };
            }
            if n == 3 && str_eq(op.as_str(), "set!") {
                if let Some(name) = atom_symbol_of(&v[1]) {
                    return match parse_expr(&v[2], define_cnt, flag) {
                        Ok(e) => Ok(Expr::Assign(name.clone(), Box::new(e))),
                        Err(x) => Err(x),
                    };
                }
            }
            if str_eq(op.as_str(), "block") {
                if n == 1 {
                    return Err(ParseError::Invalid);
                }
                let ghost items = sv.skip(1);
                let mut out: Vec<Expr> = Vec::new();
                let mut i: usize = 1;
                assert(items.take(0) =~= Seq::<SExprV>::empty());
                while i < n
                    invariant
                        1 <= i <= n,
                        n == v@.len(),
                        sv == sexprs_view(v@),
                        sv.len() == n,
                        forall|k: int| 0 <= k < n ==> #[trigger] sv[k] == v@[k]@,
                        forall|k: int| 0 <= k < n ==> decreases_to!(*s => #[trigger] v[k]),
                        items == sv.skip(1),
                        repl == (flag@ == "-i"@),
                        (Ok::<Seq<ExprV>, ParseErrorV>(exprs_view(out@)), *define_cnt as int)
                            == parse_items(items.take(i - 1), c0, repl),
                        *define_cnt == c0 || *define_cnt <= 1,
                    decreases n - i,
                {
                    assert(items.take(i as int).drop_last() =~= items.take(i - 1));
                    assert(items.take(i as int).last() == sv[i as int]);
                    match parse_expr(&v[i], define_cnt, flag) {
                        Ok(e) => {
                            let ghost before = out@;
                            out.push(e);
                            assert(out@.drop_last() =~= before);
                        },
                        Err(x) => {
                            proof {
                                lemma_items_error_persists(items, i as int, c0, repl);
                            }
                            return Err(x);
                        },
                    }
                    i = i + 1;
                }
                assert(items.take(n - 1) =~= items);
                return Ok(Expr::Block(out));
            }
            if n == 3 && str_eq(op.as_str(), "define") {
                if let Some(name) = atom_symbol_of(&v[1]) {
                    if *define_cnt < i64::MAX {
                        *define_cnt += 1;
                    }
                    if *define_cnt > 1 || !str_eq(flag, "-i") {
                        return Err(ParseError::Invalid);
                    }
                    return match parse_expr(&v[2], define_cnt, flag) {
                        Ok(e) => Ok(Expr::Define(name.clone(), Box::new(e))),
                        Err(x) => Err(x),
                    };
                }
            }
            if n == 3 && str_eq(op.as_str(), "let") {
                if let SExpr::List(bvec) = &v[1] {
                    let ghost bv = sexprs_view(bvec@);
                    proof {
                        lemma_sexprs_view(bvec@);
                        assert(decreases_to!(v[1] => v[1]->List_0));
                        assert forall|k: int| 0 <= k < bvec.len() implies decreases_to!(
                            *s => #[trigger] bvec[k]) by {
                            assert(decreases_to!(*bvec => bvec[k]));
                        }
                    }
                    let m = bvec.len();
                    let mut out: Vec<(String, Expr)> = Vec::new();
                    let mut j: usize = 0;
                    assert(bv.take(0) =~= Seq::<SExprV>::empty());
                    while j < m
                        invariant
                            j <= m,
                            m == bvec@.len(),
                            bv == sexprs_view(bvec@),
                            bv.len() == m,
                            forall|k: int| 0 <= k < m ==> #[trigger] bv[k] == bvec@[k]@,
                            forall|k: int| 0 <= k < m ==> decreases_to!(*s => #[trigger] bvec[k]),
                            repl == (flag@ == "-i"@),
                                (
                                Ok::<Seq<(Seq<char>, ExprV)>, ParseErrorV>(bindings_view(out@)),
                                *define_cnt as int,
                            ) == parse_bindings(bv.take(j as int), c0, repl),
                            *define_cnt == c0 || *define_cnt <= 1,
                        decreases m - j,
                    {
                        assert(bv.take(j + 1).drop_last() =~= bv.take(j as int));
                        assert(bv.take(j + 1).last() == bv[j as int]);
                        match &bvec[j] {
                            SExpr::Atom(_) => {
                                proof {
                                    lemma_bindings_error_persists(bv, j + 1, c0, repl);
                                }
                                return Err(ParseError::BindingNotList);
                            },
                            SExpr::List(pair) => {
                                proof {
                                    lemma_sexprs_view(pair@);
                                    assert(decreases_to!(bvec[j as int] => bvec[j as int]->List_0));
                                }
                                let mut bound = false;
                                if pair.len() == 2 {
                                    proof {
                                        assert(decreases_to!(*pair => pair[1]));
                                    }
                                    if let Some(name) = atom_symbol_of(&pair[0]) {
                                        if has_binding(&out, name) {
                                            proof {
                                                lemma_bindings_error_persists(
                                                    bv,
                                                    j + 1,
                                                    c0,
                                                    repl,
                                                );
                                            }
                                            return Err(ParseError::DuplicateBinding);
                                        }
                                        match parse_expr(&pair[1], define_cnt, flag) {
                                            Ok(e) => {
                                                let ghost before = out@;
                                                out.push((name.clone(), e));
                                                assert(out@.drop_last() =~= before);
                                                bound = true;
                                            },
                                            Err(x) => {
                                                proof {
                                                    lemma_bindings_error_persists(
                                                        bv,
                                                        j + 1,
                                                        c0,
                                                        repl,
                                                    );
                                                }
                                                return Err(x);
                                            },
                                        }
                                    }
                                }
                                if !bound {
                                    proof {
                                        lemma_bindings_error_persists(bv, j + 1, c0, repl);
                                    }
                                    return Err(ParseError::InvalidBindingPair(sexpr_list_text(pair)));
                                }
                            },
                        }
                        j = j + 1;
                    }
                    assert(bv.take(m as int) =~= bv);
                    return match parse_expr(&v[2], define_cnt, flag) {
                        Ok(e) => Ok(Expr::Let(out, Box::new(e))),
                        Err(x) => Err(x),
                    };
                }
            }
            Err(ParseError::Invalid)
        },
    }
}


/// Reads a program from its text: one s-expression, then the expression it
/// denotes, with no `define` met before. `flag` is the mode of the driver
/// (`-i` at the prompt).
pub fn parse_program(text: &str, flag: &str) -> (r: Result<Expr, ParseError>)
    ensures
        match sexp_reading(text@) {
            Err(m) => parsed_view(r) == Err::<ExprV, ParseErrorV>(ParseErrorV::Syntax(m)),
            Ok(t) => parsed_view(r) == parse_sexpr(t, 0, flag@ == "-i"@).0,
        },
{
    match read_sexpr(text) {
        Err(m) => Err(ParseError::Syntax(m)),
        Ok(t) => {
            let mut define_count: i64 = 0;
            parse_expr(&t, &mut define_count, flag)
        },
    }
}


/// The number of `define` forms in an expression.
pub open spec fn defines(e: ExprV) -> nat
    decreases e,
{
    match e {
        ExprV::Define(_, a) => 1 + defines(*a),
        ExprV::UnOp(_, a) => defines(*a),
        ExprV::BinOp(_, a, b) => defines(*a) + defines(*b),
        ExprV::If(a, b, c) => defines(*a) + defines(*b) + defines(*c),
        ExprV::Loop(a) => defines(*a),
        ExprV::Break(a) => defines(*a),
        ExprV::Assign(_, a) => defines(*a),
        ExprV::Block(es) => exprs_defines(es),
        ExprV::Let(bs, body) => bindings_defines(bs) + defines(*body),
        _ => 0,
    }
}

/// The number of `define` forms in a sequence of expressions.
pub open spec fn exprs_defines(es: Seq<ExprV>) -> nat
    decreases es,
{
    if es.len() == 0 {
        0
    } else {
        exprs_defines(es.drop_last()) + defines(es.last())
    }
}

/// The number of `define` forms in the bound expressions of a `let`.
pub open spec fn bindings_defines(bs: Seq<(Seq<char>, ExprV)>) -> nat
    decreases bs,
{
    if bs.len() == 0 {
        0
    } else {
        bindings_defines(bs.drop_last()) + defines(bs.last().1)
    }
}

/// Whether no `let` in `e` binds one name twice.
pub open spec fn lets_distinct(e: ExprV) -> bool
    decreases e,
{
    match e {
        ExprV::Define(_, a) => lets_distinct(*a),
        ExprV::UnOp(_, a) => lets_distinct(*a),
        ExprV::BinOp(_, a, b) => lets_distinct(*a) && lets_distinct(*b),
        ExprV::If(a, b, c) => lets_distinct(*a) && lets_distinct(*b) && lets_distinct(*c),
        ExprV::Loop(a) => lets_distinct(*a),
        ExprV::Break(a) => lets_distinct(*a),
        ExprV::Assign(_, a) => lets_distinct(*a),
        ExprV::Block(es) => exprs_lets_distinct(es),
        ExprV::Let(bs, body) => bindings_lets_distinct(bs) && lets_distinct(*body),
        _ => true,
    }
}

/// Whether no `let` in a sequence of expressions binds one name twice.
pub open spec fn exprs_lets_distinct(es: Seq<ExprV>) -> bool
    decreases es,
{
    if es.len() == 0 {
        true
    } else {
        exprs_lets_distinct(es.drop_last()) && lets_distinct(es.last())
    }
}

/// Whether the bindings name distinct variables, and no `let` in their
/// expressions binds one name twice.
pub open spec fn bindings_lets_distinct(bs: Seq<(Seq<char>, ExprV)>) -> bool
    decreases bs,
{
    if bs.len() == 0 {
        true
    } else {
        bindings_lets_distinct(bs.drop_last()) && !binds(bs.drop_last(), bs.last().0)
            && lets_distinct(bs.last().1)
    }
}

/// What reading from count `cnt` to count `c` with outcome `r` keeps: the
/// count grows by the definitions read, definitions are read only at the
/// prompt and leave the count at most one, and every `let` binds distinct
/// names.
pub open spec fn read_keeps(r: Result<ExprV, ParseErrorV>, cnt: int, c: int, repl: bool) -> bool {
    r matches Ok(e) ==> {
        &&& c == cnt + defines(e)
        &&& lets_distinct(e)
        &&& defines(e) > 0 ==> repl && c <= 1
    }
}

/// A read expression counts its `define` forms into the count it was read
/// at, binds no name twice in one `let`, and holds a definition only at the
/// prompt, the count then being at most one.
pub proof fn lemma_parse_sexpr_keeps(s: SExprV, cnt: int, repl: bool)
    ensures
        read_keeps(parse_sexpr(s, cnt, repl).0, cnt, parse_sexpr(s, cnt, repl).1, repl),
    decreases s,
{
    if let SExprV::List(v) = s {
        lemma_parse_form_keeps(v, cnt, repl);
    }
}

proof fn lemma_parse_form_keeps(v: Seq<SExprV>, cnt: int, repl: bool)
    ensures
        read_keeps(parse_form(v, cnt, repl).0, cnt, parse_form(v, cnt, repl).1, repl),
    decreases v, 0int,
{
    if v.len() > 0 && atom_symbol(v[0]) is Some {
        let op = atom_symbol(v[0])->0;
        if v.len() >= 2 {
            lemma_parse_sexpr_keeps(v[1], cnt, repl);
            let c1 = parse_sexpr(v[1], cnt, repl).1;
            if v.len() >= 3 {
                lemma_parse_sexpr_keeps(v[2], c1, repl);
                lemma_parse_sexpr_keeps(v[2], cnt, repl);
                lemma_parse_sexpr_keeps(v[2], cnt + 1, repl);
                let c2 = parse_sexpr(v[2], c1, repl).1;
                if v.len() >= 4 {
                    lemma_parse_sexpr_keeps(v[3], c2, repl);
                }
            }
        }
        if op == "block"@ && v.len() > 1 {
            lemma_parse_items_keeps(v.skip(1), cnt, repl);
        }
        if op == "let"@ && v.len() == 3 && v[1] is List {
            assert(decreases_to!(v[1] => v[1]->List_0));
            lemma_parse_bindings_keeps(v[1]->List_0, cnt, repl);
            let cb = parse_bindings(v[1]->List_0, cnt, repl).1;
            lemma_parse_sexpr_keeps(v[2], cb, repl);
        }
    }
}

proof fn lemma_parse_items_keeps(items: Seq<SExprV>, cnt: int, repl: bool)
    ensures
        parse_items(items, cnt, repl).0 matches Ok(es) ==> {
            let c = parse_items(items, cnt, repl).1;
            &&& c == cnt + exprs_defines(es)
            &&& exprs_lets_distinct(es)
            &&& exprs_defines(es) > 0 ==> repl && c <= 1
        },
    decreases items, 0int,
{
    if items.len() > 0 {
        lemma_parse_items_keeps(items.drop_last(), cnt, repl);
        let cp = parse_items(items.drop_last(), cnt, repl).1;
        lemma_parse_sexpr_keeps(items.last(), cp, repl);
        if let Ok(es) = parse_items(items, cnt, repl).0 {
            let pre = parse_items(items.drop_last(), cnt, repl).0->Ok_0;
            assert(es.drop_last() =~= pre);
        }
    }
}

proof fn lemma_parse_bindings_keeps(bs: Seq<SExprV>, cnt: int, repl: bool)
    ensures
        parse_bindings(bs, cnt, repl).0 matches Ok(out) ==> {
            let c = parse_bindings(bs, cnt, repl).1;
            &&& c == cnt + bindings_defines(out)
            &&& bindings_lets_distinct(out)
            &&& bindings_defines(out) > 0 ==> repl && c <= 1
        },
    decreases bs, 0int,
{
    if bs.len() > 0 {
        lemma_parse_bindings_keeps(bs.drop_last(), cnt, repl);
        let cp = parse_bindings(bs.drop_last(), cnt, repl).1;
        if let SExprV::List(pair) = bs.last() {
            if pair.len() == 2 {
                assert(decreases_to!(bs => bs.last()));
                assert(decreases_to!(bs.last() => pair));
                lemma_parse_sexpr_keeps(pair[1], cp, repl);
            }
        }
        if let Ok(out) = parse_bindings(bs, cnt, repl).0 {
            let pre = parse_bindings(bs.drop_last(), cnt, repl).0->Ok_0;
            assert(out.drop_last() =~= pre);
        }
    }
}

/// What a read program is: at most one definition, none unless read at the
/// prompt, and no `let` that binds one name twice.
pub proof fn law_read_program_is_well_formed(s: SExprV, repl: bool)
    ensures
        parse_sexpr(s, 0, repl).0 matches Ok(e) ==> {
            &&& defines(e) <= 1
            &&& !repl ==> defines(e) == 0
            &&& lets_distinct(e)
        },
{
    lemma_parse_sexpr_keeps(s, 0, repl);
}

/// Whether a binding form is a list of a name and one expression.
pub open spec fn binding_pair(b: SExprV) -> bool {
    b is List && b->List_0.len() == 2 && atom_symbol(b->List_0[0]) is Some
}

/// The name of a binding form.
pub open spec fn binding_name(b: SExprV) -> Seq<char> {
    atom_symbol(b->List_0[0])->0
}

/// The expression form of a binding form.
pub open spec fn binding_form(b: SExprV) -> SExprV {
    b->List_0[1]
}

/// The `define` count after reading the first `i` bindings.
pub open spec fn count_before(bs: Seq<SExprV>, cnt: int, repl: bool, i: int) -> int {
    parse_bindings(bs.take(i), cnt, repl).1
}

/// What reading the bindings of a `let` gives, binding by binding: each
/// binding form is a name and an expression; the result lists, in input order,
/// each name with the expression read from its form, the `define` count
/// threaded from left to right; the names are pairwise distinct. Conversely,
/// bindings whose forms are pairs with pairwise distinct names, each of whose
/// expressions reads at the count threaded to it, are read without error.
pub proof fn law_let_bindings_in_order(bs: Seq<SExprV>, cnt: int, repl: bool)
    ensures
        parse_bindings(bs, cnt, repl).0 matches Ok(r) ==> {
            &&& r.len() == bs.len()
            &&& forall|i: int|
                0 <= i < bs.len() ==> {
                    &&& binding_pair(#[trigger] bs[i])
                    &&& parse_sexpr(binding_form(bs[i]), count_before(bs, cnt, repl, i), repl).0 is Ok
                    &&& r[i] == (
                        binding_name(bs[i]),
                        parse_sexpr(binding_form(bs[i]), count_before(bs, cnt, repl, i), repl).0->Ok_0,
                    )
                    &&& count_before(bs, cnt, repl, i + 1) == parse_sexpr(
                        binding_form(bs[i]),
                        count_before(bs, cnt, repl, i),
                        repl,
                    ).1
                }
            &&& forall|i: int, j: int| 0 <= i < j < bs.len() ==> #[trigger] r[i].0 != #[trigger] r[j].0
            &&& count_before(bs, cnt, repl, bs.len() as int) == parse_bindings(bs, cnt, repl).1
        },
        (forall|i: int|
            0 <= i < bs.len() ==> binding_pair(#[trigger] bs[i]) && parse_sexpr(
                binding_form(bs[i]),
                count_before(bs, cnt, repl, i),
                repl,
            ).0 is Ok) && (forall|i: int, j: int|
            0 <= i < j < bs.len() ==> binding_name(#[trigger] bs[i]) != binding_name(
                #[trigger] bs[j],
            )) ==> parse_bindings(bs, cnt, repl).0 is Ok,
{
    lemma_bindings_read_in_order(bs, cnt, repl);
    lemma_bindings_readable(bs, cnt, repl);
}

#[verifier::spinoff_prover]
#[verifier::rlimit(40)]
proof fn lemma_bindings_read_in_order(bs: Seq<SExprV>, cnt: int, repl: bool)
    ensures
        parse_bindings(bs, cnt, repl).0 matches Ok(r) ==> {
            &&& r.len() == bs.len()
            &&& forall|i: int|
                0 <= i < bs.len() ==> {
                    &&& binding_pair(#[trigger] bs[i])
                    &&& parse_sexpr(binding_form(bs[i]), count_before(bs, cnt, repl, i), repl).0 is Ok
                    &&& r[i] == (
                        binding_name(bs[i]),
                        parse_sexpr(binding_form(bs[i]), count_before(bs, cnt, repl, i), repl).0->Ok_0,
                    )
                    &&& count_before(bs, cnt, repl, i + 1) == parse_sexpr(
                        binding_form(bs[i]),
                        count_before(bs, cnt, repl, i),
                        repl,
                    ).1
                }
            &&& forall|i: int, j: int| 0 <= i < j < bs.len() ==> #[trigger] r[i].0 != #[trigger] r[j].0
            &&& count_before(bs, cnt, repl, bs.len() as int) == parse_bindings(bs, cnt, repl).1
        },
    decreases bs.len(),
{
    assert(bs.take(bs.len() as int) =~= bs);
    if bs.len() > 0 {
        let n = bs.len() - 1;
        let pre_bs = bs.drop_last();
        lemma_bindings_read_in_order(pre_bs, cnt, repl);
        assert forall|i: int| 0 <= i <= n implies #[trigger] bs.take(i) == pre_bs.take(i) by {
            assert(bs.take(i) =~= pre_bs.take(i));
        }
        assert(bs.take(n) == pre_bs);
        assert(pre_bs.take(n) =~= pre_bs);
        assert forall|i: int| 0 <= i <= n implies #[trigger] count_before(bs, cnt, repl, i)
            == count_before(pre_bs, cnt, repl, i) by {
            assert(bs.take(i) == pre_bs.take(i));
        }
        assert forall|i: int| 0 <= i < n implies #[trigger] bs[i] == pre_bs[i] by {}
        let (rp, cp) = parse_bindings(pre_bs, cnt, repl);
        if let Ok(r) = parse_bindings(bs, cnt, repl).0 {
            let pre = rp->Ok_0;
            let b = bs[n];
            assert(b == bs.last());
            let pair = b->List_0;
            let name = atom_symbol(pair[0])->0;
            assert(!binds(pre, name));
            assert(r == pre.push((name, parse_sexpr(pair[1], cp, repl).0->Ok_0)));
            assert forall|i: int, j: int| 0 <= i < j < bs.len() implies #[trigger] r[i].0
                != #[trigger] r[j].0 by {
                if j < n {
                    assert(r[i] == pre[i] && r[j] == pre[j]);
                } else {
                    assert(r[i] == pre[i]);
                    if pre[i].0 == name {
                        assert(binds(pre, name));
                    }
                }
            }
            assert forall|i: int| 0 <= i < bs.len() implies {
                &&& binding_pair(#[trigger] bs[i])
                &&& parse_sexpr(binding_form(bs[i]), count_before(bs, cnt, repl, i), repl).0 is Ok
                &&& r[i] == (
                    binding_name(bs[i]),
                    parse_sexpr(binding_form(bs[i]), count_before(bs, cnt, repl, i), repl).0->Ok_0,
                )
                &&& count_before(bs, cnt, repl, i + 1) == parse_sexpr(
                    binding_form(bs[i]),
                    count_before(bs, cnt, repl, i),
                    repl,
                ).1
            } by {
                if i < n {
                    assert(bs[i] == pre_bs[i]);
                    assert(r[i] == pre[i]);
                    assert(count_before(bs, cnt, repl, i) == count_before(pre_bs, cnt, repl, i));
                    assert(count_before(bs, cnt, repl, i + 1) == count_before(pre_bs, cnt, repl, i + 1));
                } else {
                    assert(count_before(bs, cnt, repl, i) == cp);
                }
            }
        }
    }
}

#[verifier::spinoff_prover]
#[verifier::rlimit(40)]
proof fn lemma_bindings_readable(bs: Seq<SExprV>, cnt: int, repl: bool)
    ensures
        (forall|i: int|
            0 <= i < bs.len() ==> binding_pair(#[trigger] bs[i]) && parse_sexpr(
                binding_form(bs[i]),
                count_before(bs, cnt, repl, i),
                repl,
            ).0 is Ok) && (forall|i: int, j: int|
            0 <= i < j < bs.len() ==> binding_name(#[trigger] bs[i]) != binding_name(
                #[trigger] bs[j],
            )) ==> parse_bindings(bs, cnt, repl).0 is Ok,
    decreases bs.len(),
{
    assert(bs.take(bs.len() as int) =~= bs);
    if bs.len() > 0 {
        let n = bs.len() - 1;
        let pre_bs = bs.drop_last();
        lemma_bindings_read_in_order(pre_bs, cnt, repl);
        lemma_bindings_readable(pre_bs, cnt, repl);
        assert forall|i: int| 0 <= i <= n implies #[trigger] bs.take(i) == pre_bs.take(i) by {
            assert(bs.take(i) =~= pre_bs.take(i));
        }
        assert(bs.take(n) == pre_bs);
        assert(pre_bs.take(n) =~= pre_bs);
        assert forall|i: int| 0 <= i <= n implies #[trigger] count_before(bs, cnt, repl, i)
            == count_before(pre_bs, cnt, repl, i) by {
            assert(bs.take(i) == pre_bs.take(i));
        }
        assert forall|i: int| 0 <= i < n implies #[trigger] bs[i] == pre_bs[i] by {}
        let (rp, cp) = parse_bindings(pre_bs, cnt, repl);
        if (forall|i: int|
            0 <= i < bs.len() ==> binding_pair(#[trigger] bs[i]) && parse_sexpr(
                binding_form(bs[i]),
                count_before(bs, cnt, repl, i),
                repl,
            ).0 is Ok) && (forall|i: int, j: int|
            0 <= i < j < bs.len() ==> binding_name(#[trigger] bs[i]) != binding_name(
                #[trigger] bs[j],
            )) {
            assert forall|i: int| 0 <= i < pre_bs.len() implies binding_pair(#[trigger] pre_bs[i])
                && parse_sexpr(binding_form(pre_bs[i]), count_before(pre_bs, cnt, repl, i), repl).0 is Ok by {
                assert(bs[i] == pre_bs[i]);
                assert(count_before(bs, cnt, repl, i) == count_before(pre_bs, cnt, repl, i));
            }
            assert forall|i: int, j: int| 0 <= i < j < pre_bs.len() implies binding_name(
                #[trigger] pre_bs[i],
            ) != binding_name(#[trigger] pre_bs[j]) by {
                assert(bs[i] == pre_bs[i] && bs[j] == pre_bs[j]);
            }
            let pre = rp->Ok_0;
            let b = bs[n];
            let name = binding_name(b);
            assert(count_before(bs, cnt, repl, n) == cp);
            assert(!binds(pre, name)) by {
                if binds(pre, name) {
                    let k = choose|k: int| 0 <= k < pre.len() && #[trigger] pre[k].0 == name;
                    assert(pre[k].0 == binding_name(pre_bs[k]));
                    assert(bs[k] == pre_bs[k]);
                    assert(binding_name(bs[k]) != binding_name(bs[n]));
                }
            }
            assert(b == bs.last());
        }
    }
}

} // verus!
