use vstd::prelude::*;
use crate::ast::{Expr, ExprV, bindings_view, exprs_view, lemma_bindings_view, lemma_exprs_view};

verus! {

/// Why an expression cannot be compiled.
#[derive(Debug, PartialEq, Eq)]
pub enum CompileError {
    /// A number literal does not fit in 63 bits.
    NumberOverflow,
    /// A name that is neither bound nor `input`.
    Unbound(String),
    /// A `let` binds a reserved word.
    KeywordAsIdentifier,
    /// A `break` that no `loop` encloses.
    BreakOutsideLoop,
    /// An operand known, before running, to be of the wrong type.
    InvalidArgument,
    /// A `set!` of a defined variable that was not given a cell.
    ImmutableDefine,
}

/// The mathematical value of a compile error.
pub enum CompileErrorV {
    NumberOverflow,
    Unbound(Seq<char>),
    KeywordAsIdentifier,
    BreakOutsideLoop,
    InvalidArgument,
    ImmutableDefine,
}

impl View for CompileError {
    type V = CompileErrorV;

    open spec fn view(&self) -> CompileErrorV {
        match self {
            CompileError::NumberOverflow => CompileErrorV::NumberOverflow,
            CompileError::Unbound(x) => CompileErrorV::Unbound(x@),
            CompileError::KeywordAsIdentifier => CompileErrorV::KeywordAsIdentifier,
            CompileError::BreakOutsideLoop => CompileErrorV::BreakOutsideLoop,
            CompileError::InvalidArgument => CompileErrorV::InvalidArgument,
            CompileError::ImmutableDefine => CompileErrorV::ImmutableDefine,
        }
    }
}

/// The text that reports a compile error.
pub open spec fn compile_error_text(e: CompileErrorV) -> Seq<char> {
    match e {
        CompileErrorV::NumberOverflow => "Invalid: number overflow"@,
        CompileErrorV::Unbound(x) => "Unbound variable identifier "@ + x,
        CompileErrorV::KeywordAsIdentifier => "Invalid: keyword used as identifier"@,
        CompileErrorV::BreakOutsideLoop => "Invalid: break outside of loop"@,
        CompileErrorV::InvalidArgument => "Invalid: invalid argument"@,
        CompileErrorV::ImmutableDefine => "Cannot set! a define'd variable that wasn't detected as mutable"@,
    }
}

impl CompileError {
    /// The text that reports this error.
    pub fn message(&self) -> (m: String)
        ensures
            m@ == compile_error_text(self@),
    {
        match self {
            CompileError::NumberOverflow => String::from_str("Invalid: number overflow"),
            CompileError::Unbound(x) => {
                let mut m = String::from_str("Unbound variable identifier ");
                m.append(x.as_str());
                m
            },
            CompileError::KeywordAsIdentifier => String::from_str(
                "Invalid: keyword used as identifier",
            ),
            CompileError::BreakOutsideLoop => String::from_str("Invalid: break outside of loop"),
            CompileError::InvalidArgument => String::from_str("Invalid: invalid argument"),
            CompileError::ImmutableDefine => String::from_str(
                "Cannot set! a define'd variable that wasn't detected as mutable",
            ),
        }
    }
}

/// The number of nodes of an expression, counting each `let` binding as a
/// node too. Twice it bounds the label numbers that compiling the expression
/// for the in-memory assembler hands out.
pub open spec fn expr_size(e: ExprV) -> nat
    decreases e,
{
    match e {
        ExprV::Let(bs, body) => 1 + bindings_size(bs) + expr_size(*body),
        ExprV::UnOp(_, a) => 1 + expr_size(*a),
        ExprV::BinOp(_, a, b) => 1 + expr_size(*a) + expr_size(*b),
        ExprV::If(a, b, c) => 1 + expr_size(*a) + expr_size(*b) + expr_size(*c),
        ExprV::Loop(a) => 1 + expr_size(*a),
        ExprV::Break(a) => 1 + expr_size(*a),
        ExprV::Assign(_, a) => 1 + expr_size(*a),
        ExprV::Block(es) => 1 + exprs_size(es),
        ExprV::Define(_, a) => 1 + expr_size(*a),
        _ => 1,
    }
}

/// The sizes of a sequence of expressions, summed.
pub open spec fn exprs_size(es: Seq<ExprV>) -> nat
    decreases es,
{
    if es.len() == 0 {
        0
    } else {
        exprs_size(es.drop_last()) + expr_size(es.last())
    }
}

/// The sizes of a sequence of bindings, summed, one more for each binding.
pub open spec fn bindings_size(bs: Seq<(Seq<char>, ExprV)>) -> nat
    decreases bs,
{
    if bs.len() == 0 {
        0
    } else {
        bindings_size(bs.drop_last()) + 1 + expr_size(bs.last().1)
    }
}


/// The larger of two numbers.
pub open spec fn max_nat(a: nat, b: nat) -> nat {
    if a >= b {
        a
    } else {
        b
    }
}

/// The stack words an expression uses from its first free slot on: one for
/// each node on the way down, a second operand one further, and each `let`
/// binding one further than the binding before it.
pub open spec fn expr_depth(e: ExprV) -> nat
    decreases e,
{
    match e {
        ExprV::Let(bs, body) => 1 + max_nat(bindings_depth(bs), bs.len() + expr_depth(*body)),
        ExprV::UnOp(_, a) => 1 + expr_depth(*a),
        ExprV::BinOp(_, a, b) => 1 + max_nat(expr_depth(*a), 1 + expr_depth(*b)),
        ExprV::If(a, b, c) => 1 + max_nat(expr_depth(*a), max_nat(expr_depth(*b), expr_depth(*c))),
        ExprV::Loop(a) => 1 + expr_depth(*a),
        ExprV::Break(a) => 1 + expr_depth(*a),
        ExprV::Assign(_, a) => 1 + expr_depth(*a),
        ExprV::Block(es) => 1 + exprs_depth(es),
        ExprV::Define(_, a) => 1 + expr_depth(*a),
        _ => 1,
    }
}

/// The deepest of a sequence of expressions, each from the same slot.
pub open spec fn exprs_depth(es: Seq<ExprV>) -> nat
    decreases es,
{
    if es.len() == 0 {
        0
    } else {
        max_nat(exprs_depth(es.drop_last()), expr_depth(es.last()))
    }
}

/// The deepest of a `let`'s bindings, the binding at position `k` starting `k`
/// slots further.
pub open spec fn bindings_depth(bs: Seq<(Seq<char>, ExprV)>) -> nat
    decreases bs,
{
    if bs.len() == 0 {
        0
    } else {
        max_nat(bindings_depth(bs.drop_last()), (bs.len() - 1) as nat + expr_depth(bs.last().1))
    }
}

/// The number of `loop` nodes of an expression where `loops`, else of its `if`
/// nodes: the labels of each kind that compiling it to text hands out.
pub open spec fn node_count(e: ExprV, loops: bool) -> nat
    decreases e,
{
    match e {
        ExprV::Let(bs, body) => bindings_node_count(bs, loops) + node_count(*body, loops),
        ExprV::UnOp(_, a) => node_count(*a, loops),
        ExprV::BinOp(_, a, b) => node_count(*a, loops) + node_count(*b, loops),
        ExprV::If(a, b, c) => (if loops {
            0nat
        } else {
            1nat
        }) + node_count(*a, loops) + node_count(*b, loops) + node_count(*c, loops),
        ExprV::Loop(a) => (if loops {
            1nat
        } else {
            0nat
        }) + node_count(*a, loops),
        ExprV::Break(a) => node_count(*a, loops),
        ExprV::Assign(_, a) => node_count(*a, loops),
        ExprV::Block(es) => exprs_node_count(es, loops),
        ExprV::Define(_, a) => node_count(*a, loops),
        _ => 0,
    }
}

/// The counts of a sequence of expressions, summed.
pub open spec fn exprs_node_count(es: Seq<ExprV>, loops: bool) -> nat
    decreases es,
{
    if es.len() == 0 {
        0
    } else {
        exprs_node_count(es.drop_last(), loops) + node_count(es.last(), loops)
    }
}

/// The counts of a sequence of bindings, summed.
pub open spec fn bindings_node_count(bs: Seq<(Seq<char>, ExprV)>, loops: bool) -> nat
    decreases bs,
{
    if bs.len() == 0 {
        0
    } else {
        bindings_node_count(bs.drop_last(), loops) + node_count(bs.last().1, loops)
    }
}

/// The `if` nodes of an expression.
pub open spec fn if_count(e: ExprV) -> nat {
    node_count(e, false)
}

/// The `loop` nodes of an expression.
pub open spec fn loop_count(e: ExprV) -> nat {
    node_count(e, true)
}

/// Whether compiling `e` from stack slot 2, with fresh counters and label
/// numbers, keeps every stack offset, counter and label number in range.
pub open spec fn limits_hold(e: ExprV) -> bool {
    &&& expr_depth(e) <= 268435453
    &&& if_count(e) <= i32::MAX
    &&& loop_count(e) <= i32::MAX
    &&& 2 * expr_size(e) <= u64::MAX
}

/// A prefix of bindings costs no more than all of them, and at least one per
/// binding.
pub proof fn lemma_bindings_size_prefix(bs: Seq<(Seq<char>, ExprV)>, k: int)
    requires
        0 <= k <= bs.len(),
    ensures
        k <= bindings_size(bs.take(k)) <= bindings_size(bs),
    decreases bs.len() - k,
{
    if k < bs.len() {
        assert(bs.take(k + 1).drop_last() =~= bs.take(k));
        lemma_bindings_size_prefix(bs, k + 1);
        lemma_bindings_size_len(bs.take(k));
    } else {
        assert(bs.take(k) =~= bs);
        lemma_bindings_size_len(bs);
    }
}

/// Bindings cost at least one each.
pub proof fn lemma_bindings_size_len(bs: Seq<(Seq<char>, ExprV)>)
    ensures
        bs.len() <= bindings_size(bs),
    decreases bs.len(),
{
    if bs.len() > 0 {
        lemma_bindings_size_len(bs.drop_last());
    }
}

/// A prefix of expressions costs no more than all of them.
pub proof fn lemma_exprs_size_prefix(es: Seq<ExprV>, k: int)
    requires
        0 <= k <= es.len(),
    ensures
        exprs_size(es.take(k)) <= exprs_size(es),
    decreases es.len() - k,
{
    if k < es.len() {
        assert(es.take(k + 1).drop_last() =~= es.take(k));
        lemma_exprs_size_prefix(es, k + 1);
    } else {
        assert(es.take(k) =~= es);
    }
}

/// Each binding is as deep as its position and its expression.
pub proof fn lemma_bindings_depth_at(bs: Seq<(Seq<char>, ExprV)>, k: int)
    requires
        0 <= k < bs.len(),
    ensures
        k + expr_depth(bs[k].1) <= bindings_depth(bs),
    decreases bs.len(),
{
    if k < bs.len() - 1 {
        assert(bs.drop_last()[k] == bs[k]);
        lemma_bindings_depth_at(bs.drop_last(), k);
    }
}

/// Each expression of a sequence is as deep as the sequence at most.
pub proof fn lemma_exprs_depth_at(es: Seq<ExprV>, k: int)
    requires
        0 <= k < es.len(),
    ensures
        expr_depth(es[k]) <= exprs_depth(es),
    decreases es.len(),
{
    if k < es.len() - 1 {
        assert(es.drop_last()[k] == es[k]);
        lemma_exprs_depth_at(es.drop_last(), k);
    }
}

/// A prefix of expressions counts no more than all of them.
pub proof fn lemma_exprs_count_prefix(es: Seq<ExprV>, k: int, loops: bool)
    requires
        0 <= k <= es.len(),
    ensures
        exprs_node_count(es.take(k), loops) <= exprs_node_count(es, loops),
    decreases es.len() - k,
{
    if k < es.len() {
        assert(es.take(k + 1).drop_last() =~= es.take(k));
        lemma_exprs_count_prefix(es, k + 1, loops);
    } else {
        assert(es.take(k) =~= es);
    }
}

/// A prefix of bindings counts no more than all of them.
pub proof fn lemma_bindings_count_prefix(bs: Seq<(Seq<char>, ExprV)>, k: int, loops: bool)
    requires
        0 <= k <= bs.len(),
    ensures
        bindings_node_count(bs.take(k), loops) <= bindings_node_count(bs, loops),
    decreases bs.len() - k,
{
    if k < bs.len() {
        assert(bs.take(k + 1).drop_last() =~= bs.take(k));
        lemma_bindings_count_prefix(bs, k + 1, loops);
    } else {
        assert(bs.take(k) =~= bs);
    }
}

/// `x` capped at `cap + 1`.
pub open spec fn capped(x: nat, cap: nat) -> nat {
    if x <= cap {
        x
    } else {
        cap + 1
    }
}

/// The sum of two capped counts, capped.
fn cap_add(a: u64, b: u64, cap: u64) -> (r: u64)
    requires
        cap < u64::MAX,
        a <= cap + 1,
        b <= cap + 1,
    ensures
        r == capped((a + b) as nat, cap as nat),
{
    if b > cap || a > cap - b {
        cap + 1
    } else {
        a + b
    }
}

/// The size of an expression, capped at `cap + 1`.
fn capped_size(e: &Expr, cap: u64) -> (n: u64)
    requires
        cap < u64::MAX,
    ensures
        n == capped(expr_size(e@), cap as nat),
    decreases e,
{
    match e {
        Expr::UnOp(_, a) => cap_add(1, capped_size(a, cap), cap),
        Expr::Loop(a) => cap_add(1, capped_size(a, cap), cap),
        Expr::Break(a) => cap_add(1, capped_size(a, cap), cap),
        Expr::Assign(_, a) => cap_add(1, capped_size(a, cap), cap),
        Expr::Define(_, a) => cap_add(1, capped_size(a, cap), cap),
        Expr::BinOp(_, a, b) => {
            let x = cap_add(1, capped_size(a, cap), cap);
            cap_add(x, capped_size(b, cap), cap)
        },
        Expr::If(a, b, c) => {
            let x = cap_add(1, capped_size(a, cap), cap);
            let y = cap_add(x, capped_size(b, cap), cap);
            cap_add(y, capped_size(c, cap), cap)
        },
        Expr::Block(es) => {
            let ghost ev = exprs_view(es@);
            proof {
                lemma_exprs_view(es@);
                assert(decreases_to!(*e => (*e)->Block_0));
                assert forall|k: int| 0 <= k < es.len() implies decreases_to!(
                    *e => #[trigger] es[k]) by {
                    assert(decreases_to!(*es => es[k]));
                }
            }
            let mut total: u64 = 0;
            let mut i: usize = 0;
            assert(ev.take(0) =~= Seq::<ExprV>::empty());
            while i < es.len()
                invariant
                    i <= es@.len(),
                    cap < u64::MAX,
                    ev.len() == es@.len(),
                    forall|k: int| 0 <= k < es@.len() ==> #[trigger] ev[k] == es@[k]@,
                    forall|k: int| 0 <= k < es@.len() ==> decreases_to!(*e => #[trigger] es[k]),
                    total == capped(exprs_size(ev.take(i as int)), cap as nat),
                decreases es@.len() - i,
            {
                assert(ev.take(i + 1).drop_last() =~= ev.take(i as int));
                assert(ev.take(i + 1).last() == ev[i as int]);
                total = cap_add(total, capped_size(&es[i], cap), cap);
                i = i + 1;
            }
            assert(ev.take(i as int) =~= ev);
            cap_add(1, total, cap)
        },
        Expr::Let(bs, body) => {
            let ghost bv = bindings_view(bs@);
            proof {
                lemma_bindings_view(bs@);
                assert(decreases_to!(*e => (*e)->Let_0));
                assert forall|k: int| 0 <= k < bs.len() implies decreases_to!(
                    *e => #[trigger] bs[k].1) by {
                    assert(decreases_to!(*bs => bs[k]));
                    assert(decreases_to!(bs[k] => bs[k].1));
                }
            }
            let mut total: u64 = 0;
            let mut i: usize = 0;
            assert(bv.take(0) =~= Seq::<(Seq<char>, ExprV)>::empty());
            while i < bs.len()
                invariant
                    i <= bs@.len(),
                    cap < u64::MAX,
                    bv.len() == bs@.len(),
                    forall|k: int| 0 <= k < bs@.len() ==> #[trigger] bv[k] == (bs@[k].0@, bs@[k].1@),
                    forall|k: int| 0 <= k < bs@.len() ==> decreases_to!(*e => #[trigger] bs[k].1),
                    total == capped(bindings_size(bv.take(i as int)), cap as nat),
                decreases bs@.len() - i,
            {
                assert(bv.take(i + 1).drop_last() =~= bv.take(i as int));
                assert(bv.take(i + 1).last() == bv[i as int]);
                let x = cap_add(total, 1, cap);
                total = cap_add(x, capped_size(&bs[i].1, cap), cap);
                i = i + 1;
            }
            assert(bv.take(i as int) =~= bv);
            let x = cap_add(1, total, cap);
            cap_add(x, capped_size(body, cap), cap)
        },
        _ => 1,
    }
}

/// The larger of two capped counts.
fn cap_max(a: u64, b: u64) -> (r: u64)
    ensures
        r == max_nat(a as nat, b as nat),
{
    if a >= b {
        a
    } else {
        b
    }
}

/// A position, capped at `cap + 1`.
fn cap_index(i: usize, cap: u64) -> (r: u64)
    ensures
        r == capped(i as nat, cap as nat),
{
    if i as u64 > cap {
        cap + 1
    } else {
        i as u64
    }
}

/// The stack depth of an expression, capped at `cap + 1`.
fn capped_depth(e: &Expr, cap: u64) -> (n: u64)
    requires
        cap < u64::MAX,
    ensures
        n == capped(expr_depth(e@), cap as nat),
    decreases e,
{
    match e {
        Expr::UnOp(_, a) => cap_add(1, capped_depth(a, cap), cap),
        Expr::Loop(a) => cap_add(1, capped_depth(a, cap), cap),
        Expr::Break(a) => cap_add(1, capped_depth(a, cap), cap),
        Expr::Assign(_, a) => cap_add(1, capped_depth(a, cap), cap),
        Expr::Define(_, a) => cap_add(1, capped_depth(a, cap), cap),
        Expr::BinOp(_, a, b) => {
            let y = cap_add(1, capped_depth(b, cap), cap);
            cap_add(1, cap_max(capped_depth(a, cap), y), cap)
        },
        Expr::If(a, b, c) => {
            let y = cap_max(capped_depth(b, cap), capped_depth(c, cap));
            cap_add(1, cap_max(capped_depth(a, cap), y), cap)
        },
        Expr::Block(es) => {
            let ghost ev = exprs_view(es@);
            proof {
                lemma_exprs_view(es@);
                assert(decreases_to!(*e => (*e)->Block_0));
                assert forall|k: int| 0 <= k < es.len() implies decreases_to!(
                    *e => #[trigger] es[k]) by {
                    assert(decreases_to!(*es => es[k]));
                }
            }
            let mut total: u64 = 0;
            let mut i: usize = 0;
            assert(ev.take(0) =~= Seq::<ExprV>::empty());
            while i < es.len()
                invariant
                    i <= es@.len(),
                    cap < u64::MAX,
                    ev.len() == es@.len(),
                    forall|k: int| 0 <= k < es@.len() ==> #[trigger] ev[k] == es@[k]@,
                    forall|k: int| 0 <= k < es@.len() ==> decreases_to!(*e => #[trigger] es[k]),
                    total == capped(exprs_depth(ev.take(i as int)), cap as nat),
                decreases es@.len() - i,
            {
                assert(ev.take(i + 1).drop_last() =~= ev.take(i as int));
                assert(ev.take(i + 1).last() == ev[i as int]);
                total = cap_max(total, capped_depth(&es[i], cap));
                i = i + 1;
            }
            assert(ev.take(i as int) =~= ev);
            cap_add(1, total, cap)
        },
        Expr::Let(bs, body) => {
            let ghost bv = bindings_view(bs@);
            proof {
                lemma_bindings_view(bs@);
                assert(decreases_to!(*e => (*e)->Let_0));
                assert forall|k: int| 0 <= k < bs.len() implies decreases_to!(
                    *e => #[trigger] bs[k].1) by {
                    assert(decreases_to!(*bs => bs[k]));
                    assert(decreases_to!(bs[k] => bs[k].1));
                }
            }
            let mut total: u64 = 0;
            let mut i: usize = 0;
            assert(bv.take(0) =~= Seq::<(Seq<char>, ExprV)>::empty());
            while i < bs.len()
                invariant
                    i <= bs@.len(),
                    cap < u64::MAX,
                    bv.len() == bs@.len(),
                    forall|k: int| 0 <= k < bs@.len() ==> #[trigger] bv[k] == (bs@[k].0@, bs@[k].1@),
                    forall|k: int| 0 <= k < bs@.len() ==> decreases_to!(*e => #[trigger] bs[k].1),
                    total == capped(bindings_depth(bv.take(i as int)), cap as nat),
                decreases bs@.len() - i,
            {
                assert(bv.take(i + 1).drop_last() =~= bv.take(i as int));
                assert(bv.take(i + 1).last() == bv[i as int]);
                let x = cap_add(cap_index(i, cap), capped_depth(&bs[i].1, cap), cap);
                total = cap_max(total, x);
                i = i + 1;
            }
            assert(bv.take(i as int) =~= bv);
            let y = cap_add(cap_index(bs.len(), cap), capped_depth(body, cap), cap);
            cap_add(1, cap_max(total, y), cap)
        },
        _ => 1,
    }
}

/// The number of `loop` nodes (where `loops`) or `if` nodes of an expression,
/// capped at `cap + 1`.
fn capped_count(e: &Expr, loops: bool, cap: u64) -> (n: u64)
    requires
        cap < u64::MAX,
    ensures
        n == capped(node_count(e@, loops), cap as nat),
    decreases e,
{
    match e {
        Expr::UnOp(_, a) => capped_count(a, loops, cap),
        Expr::Loop(a) => cap_add(if loops { 1 } else { 0 }, capped_count(a, loops, cap), cap),
        Expr::Break(a) => capped_count(a, loops, cap),
        Expr::Assign(_, a) => capped_count(a, loops, cap),
        Expr::Define(_, a) => capped_count(a, loops, cap),
        Expr::BinOp(_, a, b) => cap_add(capped_count(a, loops, cap), capped_count(b, loops, cap), cap),
        Expr::If(a, b, c) => {
            let x = cap_add(if loops { 0 } else { 1 }, capped_count(a, loops, cap), cap);
            let y = cap_add(x, capped_count(b, loops, cap), cap);
            cap_add(y, capped_count(c, loops, cap), cap)
        },
        Expr::Block(es) => {
            let ghost ev = exprs_view(es@);
            proof {
                lemma_exprs_view(es@);
                assert(decreases_to!(*e => (*e)->Block_0));
                assert forall|k: int| 0 <= k < es.len() implies decreases_to!(
                    *e => #[trigger] es[k]) by {
                    assert(decreases_to!(*es => es[k]));
                }
            }
            let mut total: u64 = 0;
            let mut i: usize = 0;
            assert(ev.take(0) =~= Seq::<ExprV>::empty());
            while i < es.len()
                invariant
                    i <= es@.len(),
                    cap < u64::MAX,
                    ev.len() == es@.len(),
                    forall|k: int| 0 <= k < es@.len() ==> #[trigger] ev[k] == es@[k]@,
                    forall|k: int| 0 <= k < es@.len() ==> decreases_to!(*e => #[trigger] es[k]),
                    total == capped(exprs_node_count(ev.take(i as int), loops), cap as nat),
                decreases es@.len() - i,
            {
                assert(ev.take(i + 1).drop_last() =~= ev.take(i as int));
                assert(ev.take(i + 1).last() == ev[i as int]);
                total = cap_add(total, capped_count(&es[i], loops, cap), cap);
                i = i + 1;
            }
            assert(ev.take(i as int) =~= ev);
            total
        },
        Expr::Let(bs, body) => {
            let ghost bv = bindings_view(bs@);
            proof {
                lemma_bindings_view(bs@);
                assert(decreases_to!(*e => (*e)->Let_0));
                assert forall|k: int| 0 <= k < bs.len() implies decreases_to!(
                    *e => #[trigger] bs[k].1) by {
                    assert(decreases_to!(*bs => bs[k]));
                    assert(decreases_to!(bs[k] => bs[k].1));
                }
            }
            let mut total: u64 = 0;
            let mut i: usize = 0;
            assert(bv.take(0) =~= Seq::<(Seq<char>, ExprV)>::empty());
            while i < bs.len()
                invariant
                    i <= bs@.len(),
                    cap < u64::MAX,
                    bv.len() == bs@.len(),
                    forall|k: int| 0 <= k < bs@.len() ==> #[trigger] bv[k] == (bs@[k].0@, bs@[k].1@),
                    forall|k: int| 0 <= k < bs@.len() ==> decreases_to!(*e => #[trigger] bs[k].1),
                    total == capped(bindings_node_count(bv.take(i as int), loops), cap as nat),
                decreases bs@.len() - i,
            {
                assert(bv.take(i + 1).drop_last() =~= bv.take(i as int));
                assert(bv.take(i + 1).last() == bv[i as int]);
                total = cap_add(total, capped_count(&bs[i].1, loops, cap), cap);
                i = i + 1;
            }
            assert(bv.take(i as int) =~= bv);
            cap_add(total, capped_count(body, loops, cap), cap)
        },
        _ => 0,
    }
}

/// Whether `e` fits the compilers' number ranges: compiled from stack slot 2,
/// its stack offsets fit an `i32` (`expr_depth(e@) <= 268435453`), its `if`
/// and `loop` labels fit the `i32` counters of the text compiler, and the
/// label numbers of the in-memory compiler, two per node at most, fit a
/// `u64`.
pub fn within_limits(e: &Expr) -> (b: bool)
    ensures
        b == limits_hold(e@),
{
    capped_depth(e, 268435453) <= 268435453 && capped_count(e, false, 2147483647) <= 2147483647
        && capped_count(e, true, 2147483647) <= 2147483647 && capped_size(e, 9223372036854775807)
        <= 9223372036854775807
}

} // verus!
