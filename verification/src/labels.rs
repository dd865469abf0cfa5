//! Label soundness of the generated code: every label is placed once and every
//! jump goes to a placed label, the enclosing loop's exit, or the runtime.
use vstd::prelude::*;
use crate::ast::{ExprV, Op1, Op2};
use crate::jitgen::{
    DefineValue, exit_tail, guard_to, jit_binop_tail, jit_bindings, jit_code, jit_equal_tail,
    jit_items, jit_unop_tail, unop_labels,
};
use crate::compile::{
    CompileErrorV, bindings_node_count, bindings_size, exprs_node_count, expr_size, exprs_size,
    if_count, loop_count,
};
use crate::textgen::{
    LabelCounters, binding_text, if_text, indented, item_break, loop_text, rax, slot,
    text_bindings, text_code, text_items,
};
use crate::x86::{Instr, Label};

verus! {

/// The labels that `code` places.
pub open spec fn placed_labels(code: Seq<Instr>) -> Set<Label>
    decreases code.len(),
{
    if code.len() == 0 {
        Set::empty()
    } else {
        let p = placed_labels(code.drop_last());
        match code.last() {
            Instr::Mark(l) => p.insert(l),
            _ => p,
        }
    }
}

/// The labels that the jumps of `code` go to.
pub open spec fn jump_labels(code: Seq<Instr>) -> Set<Label>
    decreases code.len(),
{
    if code.len() == 0 {
        Set::empty()
    } else {
        let p = jump_labels(code.drop_last());
        match code.last() {
            Instr::Jmp(l) => p.insert(l),
            Instr::J(_, l) => p.insert(l),
            _ => p,
        }
    }
}

/// Whether `code` places no label twice.
pub open spec fn marks_distinct(code: Seq<Instr>) -> bool
    decreases code.len(),
{
    if code.len() == 0 {
        true
    } else {
        &&& marks_distinct(code.drop_last())
        &&& code.last() matches Instr::Mark(l) ==> !placed_labels(code.drop_last()).contains(l)
    }
}

/// The labels of the in-memory assembler numbered from `lo` up to, not
/// including, `hi`.
pub open spec fn dynamic_range(lo: int, hi: int) -> Set<Label> {
    Set::new(|l: Label| l matches Label::Dynamic(k) && lo <= k && k < hi)
}

/// The label a `break` may leave to, as a set.
pub open spec fn break_set(brk: Option<Label>) -> Set<Label> {
    match brk {
        Some(l) => set![l],
        None => Set::empty(),
    }
}

/// What makes code assemble: it places only labels numbered from `lo` up to
/// `hi`, none twice, and every jump goes to a label it places or to `brk`.
pub open spec fn labels_sound(code: Seq<Instr>, lo: int, hi: int, brk: Option<Label>) -> bool {
    &&& placed_labels(code).subset_of(dynamic_range(lo, hi))
    &&& marks_distinct(code)
    &&& jump_labels(code).subset_of(placed_labels(code).union(break_set(brk)))
}

/// Labels of a concatenation are those of its parts; parts that place
/// disjoint labels, each none twice, place none twice together.
pub proof fn lemma_labels_concat(a: Seq<Instr>, b: Seq<Instr>)
    ensures
        placed_labels(a + b) == placed_labels(a).union(placed_labels(b)),
        jump_labels(a + b) == jump_labels(a).union(jump_labels(b)),
        marks_distinct(a) && marks_distinct(b) && placed_labels(a).disjoint(placed_labels(b))
            ==> marks_distinct(a + b),
    decreases b.len(),
{
    if b.len() == 0 {
        assert(a + b =~= a);
        assert(placed_labels(a).union(placed_labels(b)) =~= placed_labels(a));
        assert(jump_labels(a).union(jump_labels(b)) =~= jump_labels(a));
    } else {
        lemma_labels_concat(a, b.drop_last());
        assert((a + b).drop_last() =~= a + b.drop_last());
        assert((a + b).last() == b.last());
        assert(placed_labels(a + b) =~= placed_labels(a).union(placed_labels(b)));
        assert(jump_labels(a + b) =~= jump_labels(a).union(jump_labels(b)));
        if marks_distinct(a) && marks_distinct(b) && placed_labels(a).disjoint(placed_labels(b)) {
            assert(placed_labels(b.drop_last()).subset_of(placed_labels(b)));
        }
    }
}

/// The labels one instruction places.
pub open spec fn mark_of(i: Instr) -> Set<Label> {
    match i {
        Instr::Mark(l) => set![l],
        _ => Set::empty(),
    }
}

/// The labels one instruction jumps to.
pub open spec fn jump_of(i: Instr) -> Set<Label> {
    match i {
        Instr::Jmp(l) => set![l],
        Instr::J(_, l) => set![l],
        _ => Set::empty(),
    }
}

proof fn lemma_empty()
    ensures
        placed_labels(Seq::<Instr>::empty()) == Set::<Label>::empty(),
        jump_labels(Seq::<Instr>::empty()) == Set::<Label>::empty(),
        marks_distinct(Seq::<Instr>::empty()),
{
}

proof fn lemma_push(s: Seq<Instr>, i: Instr)
    ensures
        placed_labels(s.push(i)) == placed_labels(s).union(mark_of(i)),
        jump_labels(s.push(i)) == jump_labels(s).union(jump_of(i)),
        marks_distinct(s.push(i)) == (marks_distinct(s) && placed_labels(s).disjoint(
            mark_of(i),
        )),
{
    assert(s.push(i).drop_last() =~= s);
    assert(s.push(i).last() == i);
    assert(placed_labels(s.push(i)) =~= placed_labels(s).union(mark_of(i)));
    assert(jump_labels(s.push(i)) =~= jump_labels(s).union(jump_of(i)));
    match i {
        Instr::Mark(l) => {
            assert(mark_of(i).contains(l));
        },
        _ => {},
    }
}

proof fn lemma_exit_tail(err: Label, ok: Label)
    requires
        err != ok,
    ensures
        placed_labels(exit_tail(err, ok)) == set![err, ok],
        jump_labels(exit_tail(err, ok)) == set![ok],
        marks_distinct(exit_tail(err, ok)),
{
    let s0 = Seq::<Instr>::empty();
    let s1 = s0.push(Instr::Jmp(ok));
    let s2 = s1.push(Instr::Mark(err));
    let s3 = s2.push(Instr::Mov(crate::x86::Operand::Reg(crate::x86::Reg::Rdi), crate::x86::Operand::Imm(1)));
    let s4 = s3.push(Instr::Mov(rax(), crate::x86::Operand::Imm(60)));
    let s5 = s4.push(Instr::Syscall);
    let s6 = s5.push(Instr::Mark(ok));
    assert(exit_tail(err, ok) == s6);
    lemma_empty();
    lemma_push(s0, Instr::Jmp(ok));
    lemma_push(s1, Instr::Mark(err));
    lemma_push(s2, Instr::Mov(crate::x86::Operand::Reg(crate::x86::Reg::Rdi), crate::x86::Operand::Imm(1)));
    lemma_push(s3, Instr::Mov(rax(), crate::x86::Operand::Imm(60)));
    lemma_push(s4, Instr::Syscall);
    lemma_push(s5, Instr::Mark(ok));
    assert(placed_labels(s6) =~= set![err, ok]);
    assert(jump_labels(s6) =~= set![ok]);
}

proof fn lemma_guard(err: Label)
    ensures
        placed_labels(guard_to(err)) == Set::<Label>::empty(),
        jump_labels(guard_to(err)) == set![err],
        marks_distinct(guard_to(err)),
{
    let s0 = Seq::<Instr>::empty();
    let s1 = s0.push(Instr::Test(rax(), crate::x86::Operand::Imm(1)));
    let s2 = s1.push(Instr::J(crate::x86::Cond::NZ, err));
    assert(guard_to(err) == s2);
    lemma_empty();
    lemma_push(s0, Instr::Test(rax(), crate::x86::Operand::Imm(1)));
    lemma_push(s1, Instr::J(crate::x86::Cond::NZ, err));
    assert(placed_labels(s2) =~= Set::<Label>::empty());
    assert(jump_labels(s2) =~= set![err]);
}

/// Code without labels or jumps.
pub open spec fn label_free(code: Seq<Instr>) -> bool {
    forall|k: int|
        0 <= k < code.len() ==> !(#[trigger] code[k] is Mark) && !(code[k] is Jmp) && !(
        code[k] is J)
}

proof fn lemma_label_free(code: Seq<Instr>)
    requires
        label_free(code),
    ensures
        placed_labels(code) == Set::<Label>::empty(),
        jump_labels(code) == Set::<Label>::empty(),
        marks_distinct(code),
    decreases code.len(),
{
    if code.len() > 0 {
        assert(label_free(code.drop_last()));
        lemma_label_free(code.drop_last());
        assert(!(code.last() is Mark));
        assert(placed_labels(code) =~= Set::<Label>::empty());
        assert(jump_labels(code) =~= Set::<Label>::empty());
    }
}

proof fn lemma_sound_label_free(code: Seq<Instr>, k: int, brk: Option<Label>)
    requires
        label_free(code),
    ensures
        labels_sound(code, k, k, brk),
{
    lemma_label_free(code);
}

proof fn lemma_sound_concat(
    a: Seq<Instr>,
    b: Seq<Instr>,
    lo: int,
    mid: int,
    hi: int,
    brk: Option<Label>,
)
    requires
        lo <= mid <= hi,
        labels_sound(a, lo, mid, brk),
        labels_sound(b, mid, hi, brk),
    ensures
        labels_sound(a + b, lo, hi, brk),
{
    lemma_labels_concat(a, b);
    assert(placed_labels(a).disjoint(placed_labels(b))) by {
        assert forall|l: Label| placed_labels(a).contains(l) implies !placed_labels(b).contains(
            l,
        ) by {
            assert(dynamic_range(lo, mid).contains(l));
            if placed_labels(b).contains(l) {
                assert(dynamic_range(mid, hi).contains(l));
            }
        }
    }
    assert(placed_labels(a + b).subset_of(dynamic_range(lo, hi))) by {
        assert forall|l: Label| placed_labels(a + b).contains(l) implies dynamic_range(
            lo,
            hi,
        ).contains(l) by {
            if placed_labels(a).contains(l) {
                assert(dynamic_range(lo, mid).contains(l));
            } else {
                assert(dynamic_range(mid, hi).contains(l));
            }
        }
    }
}

proof fn lemma_sound_push_plain(code: Seq<Instr>, i: Instr, lo: int, hi: int, brk: Option<Label>)
    requires
        labels_sound(code, lo, hi, brk),
        !(i is Mark),
        !(i is Jmp),
        !(i is J),
    ensures
        labels_sound(code.push(i), lo, hi, brk),
{
    lemma_push(code, i);
    assert(mark_of(i) =~= Set::<Label>::empty());
    assert(jump_of(i) =~= Set::<Label>::empty());
    assert(placed_labels(code.push(i)) =~= placed_labels(code));
    assert(jump_labels(code.push(i)) =~= jump_labels(code));
}

proof fn lemma_sound_unop(ca: Seq<Instr>, op: Op1, si: int, next: int, n1: nat, brk: Option<Label>)
    requires
        next <= n1,
        n1 + unop_labels(op) <= u64::MAX,
        labels_sound(ca, next, n1 as int, brk),
    ensures
        labels_sound(ca + jit_unop_tail(op, si, n1), next, (n1 + unop_labels(op)) as int, brk),
{
    let t = jit_unop_tail(op, si, n1);
    match op {
        Op1::IsNum | Op1::IsBool => {
            assert(label_free(t));
            lemma_sound_label_free(t, n1 as int, brk);
            lemma_sound_concat(ca, t, next, n1 as int, n1 as int, brk);
        },
        _ => {
            let err = Label::Dynamic(n1 as u64);
            let ok = Label::Dynamic((n1 + 1) as u64);
            let i = if op == Op1::Add1 {
                Instr::Add(rax(), crate::x86::Operand::Imm(2))
            } else {
                Instr::Sub(rax(), crate::x86::Operand::Imm(2))
            };
            let g = guard_to(err).push(i);
            assert(t == g + exit_tail(err, ok));
            lemma_guard(err);
            lemma_push(guard_to(err), i);
            assert(mark_of(i) =~= Set::<Label>::empty());
            assert(jump_of(i) =~= Set::<Label>::empty());
            lemma_exit_tail(err, ok);
            lemma_labels_concat(g, exit_tail(err, ok));
            assert(placed_labels(t) =~= set![err, ok]);
            assert(jump_labels(t) =~= set![err, ok]);
            assert(dynamic_range(n1 as int, (n1 + 2) as int).contains(err));
            assert(dynamic_range(n1 as int, (n1 + 2) as int).contains(ok));
            assert(labels_sound(t, n1 as int, (n1 + 2) as int, brk));
            lemma_sound_concat(ca, t, next, n1 as int, (n1 + 2) as int, brk);
        },
    }
}

proof fn lemma_single(i: Instr)
    ensures
        placed_labels(seq![i]) == mark_of(i),
        jump_labels(seq![i]) == jump_of(i),
        marks_distinct(seq![i]),
{
    lemma_empty();
    lemma_push(Seq::<Instr>::empty(), i);
    assert(Set::<Label>::empty().union(mark_of(i)) =~= mark_of(i));
    assert(Set::<Label>::empty().union(jump_of(i)) =~= jump_of(i));
}

proof fn lemma_ranges_disjoint(s1: Set<Label>, s2: Set<Label>, lo1: int, hi1: int, lo2: int, hi2: int)
    requires
        s1.subset_of(dynamic_range(lo1, hi1)),
        s2.subset_of(dynamic_range(lo2, hi2)),
        hi1 <= lo2 || hi2 <= lo1,
    ensures
        s1.disjoint(s2),
{
    assert forall|l: Label| s1.contains(l) implies !s2.contains(l) by {
        assert(dynamic_range(lo1, hi1).contains(l));
        if s2.contains(l) {
            assert(dynamic_range(lo2, hi2).contains(l));
        }
    }
}

proof fn lemma_equal_tail(si: int, err: Label, ok: Label)
    requires
        err != ok,
    ensures
        placed_labels(jit_equal_tail(si, err, ok)) == set![err, ok],
        jump_labels(jit_equal_tail(si, err, ok)) == set![err, ok],
        marks_distinct(jit_equal_tail(si, err, ok)),
{
    let t = jit_equal_tail(si, err, ok);
    let pre = t.subrange(0, 3);
    let j = t.subrange(3, 4);
    let post = t.subrange(4, 9);
    let e = exit_tail(err, ok);
    assert(t =~= pre + j + post + e);
    assert(label_free(pre));
    assert(label_free(post));
    lemma_label_free(pre);
    lemma_label_free(post);
    assert(j =~= seq![Instr::J(crate::x86::Cond::NZ, err)]);
    lemma_single(Instr::J(crate::x86::Cond::NZ, err));
    lemma_exit_tail(err, ok);
    lemma_labels_concat(pre, j);
    lemma_labels_concat(pre + j, post);
    lemma_labels_concat(pre + j + post, e);
    assert(placed_labels(t) =~= set![err, ok]);
    assert(jump_labels(t) =~= set![err, ok]);
}

proof fn lemma_sound_equal(
    ca: Seq<Instr>,
    cb: Seq<Instr>,
    si: int,
    next: int,
    n1: int,
    n2: nat,
    brk: Option<Label>,
)
    requires
        next <= n1 <= n2,
        n2 + 2 <= u64::MAX,
        labels_sound(ca, next, n1, brk),
        labels_sound(cb, n1, n2 as int, brk),
    ensures
        labels_sound(
            ca + seq![Instr::Mov(slot(si), rax())] + cb + jit_equal_tail(
                si,
                Label::Dynamic(n2 as u64),
                Label::Dynamic((n2 + 1) as u64),
            ),
            next,
            (n2 + 2) as int,
            brk,
        ),
{
    let err = Label::Dynamic(n2 as u64);
    let ok = Label::Dynamic((n2 + 1) as u64);
    let m = seq![Instr::Mov(slot(si), rax())];
    let t = jit_equal_tail(si, err, ok);
    assert(label_free(m));
    lemma_sound_label_free(m, n1, brk);
    lemma_sound_concat(ca, m, next, n1, n1, brk);
    lemma_sound_concat(ca + m, cb, next, n1, n2 as int, brk);
    lemma_equal_tail(si, err, ok);
    assert(dynamic_range(n2 as int, (n2 + 2) as int).contains(err));
    assert(dynamic_range(n2 as int, (n2 + 2) as int).contains(ok));
    assert(labels_sound(t, n2 as int, (n2 + 2) as int, brk));
    lemma_sound_concat(ca + m + cb, t, next, n2 as int, (n2 + 2) as int, brk);
}

proof fn lemma_sound_arith(
    ca: Seq<Instr>,
    cb: Seq<Instr>,
    op: Op2,
    si: int,
    next: int,
    n1: nat,
    n2: nat,
    brk: Option<Label>,
)
    requires
        next <= n1,
        n1 + 1 <= n2,
        n2 + 1 <= u64::MAX,
        op != Op2::Equal,
        labels_sound(ca, next, n1 as int, brk),
        labels_sound(cb, (n1 + 1) as int, n2 as int, brk),
    ensures
        labels_sound(
            ca + guard_to(Label::Dynamic(n1 as u64)).push(Instr::Mov(slot(si), rax())) + cb
                + guard_to(Label::Dynamic(n1 as u64)) + jit_binop_tail(op, si) + exit_tail(
                Label::Dynamic(n1 as u64),
                Label::Dynamic(n2 as u64),
            ),
            next,
            (n2 + 1) as int,
            brk,
        ),
{
    let err = Label::Dynamic(n1 as u64);
    let ok = Label::Dynamic(n2 as u64);
    let mv = Instr::Mov(slot(si), rax());
    let x = guard_to(err).push(mv);
    let g = guard_to(err);
    let t = jit_binop_tail(op, si);
    let e = exit_tail(err, ok);
    lemma_guard(err);
    lemma_push(g, mv);
    assert(mark_of(mv) =~= Set::<Label>::empty());
    assert(jump_of(mv) =~= Set::<Label>::empty());
    assert(label_free(t));
    lemma_label_free(t);
    lemma_exit_tail(err, ok);
    let w1 = ca + x;
    let w2 = w1 + cb;
    let w3 = w2 + g;
    let w4 = w3 + t;
    let w5 = w4 + e;
    lemma_labels_concat(ca, x);
    assert(placed_labels(x) =~= Set::<Label>::empty());
    assert(placed_labels(w1) =~= placed_labels(ca));
    lemma_ranges_disjoint(placed_labels(w1), placed_labels(cb), next, n1 as int, (n1 + 1) as int, n2 as int);
    lemma_labels_concat(w1, cb);
    lemma_labels_concat(w2, g);
    lemma_labels_concat(w3, t);
    assert(placed_labels(w4) =~= placed_labels(ca).union(placed_labels(cb)));
    assert(placed_labels(w4).disjoint(placed_labels(e))) by {
        assert forall|l: Label| placed_labels(w4).contains(l) implies !placed_labels(e).contains(
            l,
        ) by {
            if placed_labels(ca).contains(l) {
                assert(dynamic_range(next, n1 as int).contains(l));
            } else {
                assert(dynamic_range((n1 + 1) as int, n2 as int).contains(l));
            }
        }
    }
    lemma_labels_concat(w4, e);
    assert(placed_labels(w5) =~= placed_labels(ca).union(placed_labels(cb)).union(set![err, ok]));
    assert(jump_labels(w5) =~= jump_labels(ca).union(jump_labels(cb)).union(set![err, ok]));
    assert(placed_labels(w5).subset_of(dynamic_range(next, (n2 + 1) as int))) by {
        assert forall|l: Label| placed_labels(w5).contains(l) implies dynamic_range(
            next,
            (n2 + 1) as int,
        ).contains(l) by {
            if placed_labels(ca).contains(l) {
                assert(dynamic_range(next, n1 as int).contains(l));
            } else if placed_labels(cb).contains(l) {
                assert(dynamic_range((n1 + 1) as int, n2 as int).contains(l));
            }
        }
    }
}

proof fn lemma_pair(a: Instr, b: Instr)
    ensures
        placed_labels(seq![a, b]) == mark_of(a).union(mark_of(b)),
        jump_labels(seq![a, b]) == jump_of(a).union(jump_of(b)),
        marks_distinct(seq![a, b]) == mark_of(a).disjoint(mark_of(b)),
{
    lemma_single(a);
    lemma_push(seq![a], b);
    assert(seq![a, b] =~= seq![a].push(b));
}

proof fn lemma_sound_if(
    ca: Seq<Instr>,
    ct: Seq<Instr>,
    cf: Seq<Instr>,
    next: int,
    n1: nat,
    n2: nat,
    n3: nat,
    brk: Option<Label>,
)
    requires
        next <= n1,
        n1 + 2 <= n2 <= n3 <= u64::MAX,
        labels_sound(ca, next, n1 as int, brk),
        labels_sound(ct, (n1 + 2) as int, n2 as int, brk),
        labels_sound(cf, n2 as int, n3 as int, brk),
    ensures
        labels_sound(
            ca + seq![
                Instr::Cmp(rax(), crate::x86::Operand::Imm(1)),
                Instr::J(crate::x86::Cond::E, Label::Dynamic(n1 as u64)),
            ] + ct + seq![
                Instr::Jmp(Label::Dynamic((n1 + 1) as u64)),
                Instr::Mark(Label::Dynamic(n1 as u64)),
            ] + cf + seq![Instr::Mark(Label::Dynamic((n1 + 1) as u64))],
            next,
            n3 as int,
            brk,
        ),
{
    let fl = Label::Dynamic(n1 as u64);
    let done = Label::Dynamic((n1 + 1) as u64);
    let i1 = Instr::Cmp(rax(), crate::x86::Operand::Imm(1));
    let i2 = Instr::J(crate::x86::Cond::E, fl);
    let p1 = seq![i1, i2];
    let p2 = seq![Instr::Jmp(done), Instr::Mark(fl)];
    let p3 = seq![Instr::Mark(done)];
    lemma_pair(i1, i2);
    lemma_pair(Instr::Jmp(done), Instr::Mark(fl));
    lemma_single(Instr::Mark(done));
    assert(mark_of(i1) =~= Set::<Label>::empty());
    assert(placed_labels(p1) =~= Set::<Label>::empty());
    assert(jump_labels(p1) =~= set![fl]);
    assert(placed_labels(p2) =~= set![fl]);
    assert(jump_labels(p2) =~= set![done]);
    assert(marks_distinct(p2));
    let w1 = ca + p1;
    let w2 = w1 + ct;
    let w3 = w2 + p2;
    let w4 = w3 + cf;
    let w5 = w4 + p3;
    lemma_labels_concat(ca, p1);
    assert(placed_labels(w1) =~= placed_labels(ca));
    lemma_ranges_disjoint(
        placed_labels(w1),
        placed_labels(ct),
        next,
        n1 as int,
        (n1 + 2) as int,
        n2 as int,
    );
    lemma_labels_concat(w1, ct);
    assert(placed_labels(w2).disjoint(placed_labels(p2))) by {
        assert forall|l: Label| placed_labels(w2).contains(l) implies !placed_labels(
            p2,
        ).contains(l) by {
            if placed_labels(ca).contains(l) {
                assert(dynamic_range(next, n1 as int).contains(l));
            } else {
                assert(dynamic_range((n1 + 2) as int, n2 as int).contains(l));
            }
        }
    }
    lemma_labels_concat(w2, p2);
    assert(placed_labels(w3) =~= placed_labels(ca).union(placed_labels(ct)).union(set![fl]));
    assert(placed_labels(w3).subset_of(dynamic_range(next, n2 as int))) by {
        assert forall|l: Label| placed_labels(w3).contains(l) implies dynamic_range(
            next,
            n2 as int,
        ).contains(l) by {
            if placed_labels(ca).contains(l) {
                assert(dynamic_range(next, n1 as int).contains(l));
            } else if placed_labels(ct).contains(l) {
                assert(dynamic_range((n1 + 2) as int, n2 as int).contains(l));
            }
        }
    }
    lemma_ranges_disjoint(
        placed_labels(w3),
        placed_labels(cf),
        next,
        n2 as int,
        n2 as int,
        n3 as int,
    );
    lemma_labels_concat(w3, cf);
    assert(placed_labels(w4).disjoint(placed_labels(p3))) by {
        assert forall|l: Label| placed_labels(w4).contains(l) implies !placed_labels(
            p3,
        ).contains(l) by {
            if placed_labels(ca).contains(l) {
                assert(dynamic_range(next, n1 as int).contains(l));
            } else if placed_labels(ct).contains(l) {
                assert(dynamic_range((n1 + 2) as int, n2 as int).contains(l));
            } else if placed_labels(cf).contains(l) {
                assert(dynamic_range(n2 as int, n3 as int).contains(l));
            }
        }
    }
    lemma_labels_concat(w4, p3);
    assert(placed_labels(w5) =~= placed_labels(ca).union(placed_labels(ct)).union(
        placed_labels(cf),
    ).union(set![fl, done]));
    assert(jump_labels(w5) =~= jump_labels(ca).union(jump_labels(ct)).union(jump_labels(cf)).union(
        set![fl, done],
    ));
    assert(placed_labels(w5).subset_of(dynamic_range(next, n3 as int))) by {
        assert forall|l: Label| placed_labels(w5).contains(l) implies dynamic_range(
            next,
            n3 as int,
        ).contains(l) by {
            if placed_labels(ca).contains(l) {
                assert(dynamic_range(next, n1 as int).contains(l));
            } else if placed_labels(ct).contains(l) {
                assert(dynamic_range((n1 + 2) as int, n2 as int).contains(l));
            } else if placed_labels(cf).contains(l) {
                assert(dynamic_range(n2 as int, n3 as int).contains(l));
            }
        }
    }
}

proof fn lemma_sound_loop(cb: Seq<Instr>, next: nat, n1: nat, brk: Option<Label>)
    requires
        next + 2 <= n1 <= u64::MAX,
        labels_sound(cb, (next + 2) as int, n1 as int, Some(Label::Dynamic((next + 1) as u64))),
    ensures
        labels_sound(
            seq![Instr::Mark(Label::Dynamic(next as u64))] + cb + seq![
                Instr::Jmp(Label::Dynamic(next as u64)),
                Instr::Mark(Label::Dynamic((next + 1) as u64)),
            ],
            next as int,
            n1 as int,
            brk,
        ),
{
    let start = Label::Dynamic(next as u64);
    let end = Label::Dynamic((next + 1) as u64);
    let p1 = seq![Instr::Mark(start)];
    let p2 = seq![Instr::Jmp(start), Instr::Mark(end)];
    lemma_single(Instr::Mark(start));
    lemma_pair(Instr::Jmp(start), Instr::Mark(end));
    assert(placed_labels(p2) =~= set![end]);
    assert(jump_labels(p2) =~= set![start]);
    assert(placed_labels(p1).disjoint(placed_labels(cb))) by {
        assert forall|l: Label| placed_labels(p1).contains(l) implies !placed_labels(
            cb,
        ).contains(l) by {
            if placed_labels(cb).contains(l) {
                assert(dynamic_range((next + 2) as int, n1 as int).contains(l));
            }
        }
    }
    lemma_labels_concat(p1, cb);
    assert(placed_labels(p1 + cb).disjoint(placed_labels(p2))) by {
        assert forall|l: Label| placed_labels(p1 + cb).contains(l) implies !placed_labels(
            p2,
        ).contains(l) by {
            if placed_labels(cb).contains(l) {
                assert(dynamic_range((next + 2) as int, n1 as int).contains(l));
            }
        }
    }
    lemma_labels_concat(p1 + cb, p2);
    let w = p1 + cb + p2;
    assert(placed_labels(w) =~= placed_labels(cb).union(set![start, end]));
    assert(jump_labels(w) =~= jump_labels(cb).union(set![start]));
    assert(placed_labels(w).subset_of(dynamic_range(next as int, n1 as int))) by {
        assert forall|l: Label| placed_labels(w).contains(l) implies dynamic_range(
            next as int,
            n1 as int,
        ).contains(l) by {
            if placed_labels(cb).contains(l) {
                assert(dynamic_range((next + 2) as int, n1 as int).contains(l));
            }
        }
    }
    assert(jump_labels(w).subset_of(placed_labels(w).union(break_set(brk)))) by {
        assert forall|l: Label| jump_labels(w).contains(l) implies placed_labels(w).union(
            break_set(brk),
        ).contains(l) by {
            if jump_labels(cb).contains(l) {
                assert(placed_labels(cb).union(break_set(Some(end))).contains(l));
            }
        }
    }
}

proof fn lemma_sound_break(ca: Seq<Instr>, l: Label, lo: int, hi: int)
    requires
        labels_sound(ca, lo, hi, Some(l)),
    ensures
        labels_sound(ca.push(Instr::Jmp(l)), lo, hi, Some(l)),
{
    lemma_push(ca, Instr::Jmp(l));
    assert(mark_of(Instr::Jmp(l)) =~= Set::<Label>::empty());
    assert(placed_labels(ca.push(Instr::Jmp(l))) =~= placed_labels(ca));
}

/// Whatever compiles for the in-memory assembler uses label numbers from
/// `next` up, and, where they fit in a `u64`, its code places each label once,
/// only labels it was given, and jumps only to labels it places or to the
/// enclosing loop's exit.
pub proof fn law_jit_labels_sound(
    e: ExprV,
    si: int,
    env: Map<Seq<char>, i32>,
    denv: Map<Seq<char>, DefineValue>,
    brk: Option<Label>,
    next: nat,
)
    ensures
        jit_code(e, si, env, denv, brk, next) matches Ok((code, n)) ==> next <= n <= next + 2
            * expr_size(e) && (n <= u64::MAX ==> labels_sound(code, next as int, n as int, brk)),
    decreases e,
{
    match e {
        ExprV::Number(_) | ExprV::Boolean(_) | ExprV::Id(_) => {
            if let Ok((code, n)) = jit_code(e, si, env, denv, brk, next) {
                assert(label_free(code));
                lemma_sound_label_free(code, next as int, brk);
            }
        },
        ExprV::UnOp(op, a) => {
            law_jit_labels_sound(*a, si, env, denv, brk, next);
            if let Ok((code, n)) = jit_code(e, si, env, denv, brk, next) {
                let (ca, n1) = jit_code(*a, si, env, denv, brk, next)->Ok_0;
                if n <= u64::MAX {
                    lemma_sound_unop(ca, op, si, next as int, n1, brk);
                }
            }
        },
        ExprV::BinOp(op, a, b) => {
            law_jit_labels_sound(*a, si, env, denv, brk, next);
            if let Ok((code, n)) = jit_code(e, si, env, denv, brk, next) {
                let (ca, n1) = jit_code(*a, si, env, denv, brk, next)->Ok_0;
                if op == Op2::Equal {
                    law_jit_labels_sound(*b, si + 1, env, denv, brk, n1);
                    let (cb, n2) = jit_code(*b, si + 1, env, denv, brk, n1)->Ok_0;
                    if n <= u64::MAX {
                        lemma_sound_equal(ca, cb, si, next as int, n1 as int, n2, brk);
                    }
                } else {
                    law_jit_labels_sound(*b, si + 1, env, denv, brk, n1 + 1);
                    let (cb, n2) = jit_code(*b, si + 1, env, denv, brk, n1 + 1)->Ok_0;
                    if n <= u64::MAX {
                        lemma_sound_arith(ca, cb, op, si, next as int, n1, n2, brk);
                    }
                }
            }
        },
        ExprV::If(a, t, f) => {
            law_jit_labels_sound(*a, si, env, denv, brk, next);
            if let Ok((code, n)) = jit_code(e, si, env, denv, brk, next) {
                let (ca, n1) = jit_code(*a, si, env, denv, brk, next)->Ok_0;
                law_jit_labels_sound(*t, si, env, denv, brk, n1 + 2);
                let (ct, n2) = jit_code(*t, si, env, denv, brk, n1 + 2)->Ok_0;
                law_jit_labels_sound(*f, si, env, denv, brk, n2);
                let (cf, n3) = jit_code(*f, si, env, denv, brk, n2)->Ok_0;
                if n <= u64::MAX {
                    lemma_sound_if(ca, ct, cf, next as int, n1, n2, n3, brk);
                }
            }
        },
        ExprV::Loop(b) => {
            let end = Label::Dynamic((next + 1) as u64);
            law_jit_labels_sound(*b, si, env, denv, Some(end), next + 2);
            if let Ok((code, n)) = jit_code(e, si, env, denv, brk, next) {
                let (cb, n1) = jit_code(*b, si, env, denv, Some(end), next + 2)->Ok_0;
                if n <= u64::MAX {
                    lemma_sound_loop(cb, next, n1, brk);
                }
            }
        },
        ExprV::Break(a) => {
            law_jit_labels_sound(*a, si, env, denv, brk, next);
            if let Ok((code, n)) = jit_code(e, si, env, denv, brk, next) {
                let (ca, n1) = jit_code(*a, si, env, denv, brk, next)->Ok_0;
                if n <= u64::MAX {
                    lemma_sound_break(ca, brk->Some_0, next as int, n as int);
                }
            }
        },
        ExprV::Assign(x, a) => {
            law_jit_labels_sound(*a, si, env, denv, brk, next);
            if let Ok((code, n)) = jit_code(e, si, env, denv, brk, next) {
                let (ca, n1) = jit_code(*a, si, env, denv, brk, next)->Ok_0;
                if n <= u64::MAX {
                    if env.contains_key(x) {
                        lemma_sound_push_plain(
                            ca,
                            Instr::Mov(crate::x86::Operand::Stack(env[x]), rax()),
                            next as int,
                            n as int,
                            brk,
                        );
                    } else {
                        let tail = code.subrange(ca.len() as int, code.len() as int);
                        assert(code =~= ca + tail);
                        assert(label_free(tail));
                        lemma_sound_label_free(tail, n as int, brk);
                        lemma_sound_concat(ca, tail, next as int, n as int, n as int, brk);
                    }
                }
            }
        },
        ExprV::Block(es) => {
            lemma_items_labels_sound(es, si, env, denv, brk, next);
        },
        ExprV::Let(bs, body) => {
            lemma_bindings_labels_sound(bs, si, env, denv, brk, next);
            if let Ok((code, n)) = jit_code(e, si, env, denv, brk, next) {
                let (cb, env2, n1) = jit_bindings(bs, si, env, denv, brk, next)->Ok_0;
                law_jit_labels_sound(*body, si + bs.len(), env2, denv, brk, n1);
                let (cbody, n2) = jit_code(*body, si + bs.len(), env2, denv, brk, n1)->Ok_0;
                if n <= u64::MAX {
                    lemma_sound_concat(cb, cbody, next as int, n1 as int, n2 as int, brk);
                }
            }
        },
        ExprV::Define(_, a) => {
            law_jit_labels_sound(*a, si, env, denv, brk, next);
        },
    }
}

proof fn lemma_items_labels_sound(
    es: Seq<ExprV>,
    si: int,
    env: Map<Seq<char>, i32>,
    denv: Map<Seq<char>, DefineValue>,
    brk: Option<Label>,
    next: nat,
)
    ensures
        jit_items(es, si, env, denv, brk, next) matches Ok((code, n)) ==> next <= n <= next + 2
            * exprs_size(es) && (n <= u64::MAX ==> labels_sound(code, next as int, n as int, brk)),
    decreases es,
{
    if es.len() == 0 {
        lemma_empty();
    } else {
        lemma_items_labels_sound(es.drop_last(), si, env, denv, brk, next);
        if let Ok((code, n)) = jit_items(es, si, env, denv, brk, next) {
            let (cp, n1) = jit_items(es.drop_last(), si, env, denv, brk, next)->Ok_0;
            law_jit_labels_sound(es.last(), si, env, denv, brk, n1);
            let (cl, n2) = jit_code(es.last(), si, env, denv, brk, n1)->Ok_0;
            if n <= u64::MAX {
                lemma_sound_concat(cp, cl, next as int, n1 as int, n2 as int, brk);
            }
        }
    }
}

proof fn lemma_bindings_labels_sound(
    bs: Seq<(Seq<char>, ExprV)>,
    si: int,
    env: Map<Seq<char>, i32>,
    denv: Map<Seq<char>, DefineValue>,
    brk: Option<Label>,
    next: nat,
)
    ensures
        jit_bindings(bs, si, env, denv, brk, next) matches Ok((code, _, n)) ==> next <= n <= next
            + 2 * bindings_size(bs) && (n <= u64::MAX ==> labels_sound(
            code,
            next as int,
            n as int,
            brk,
        )),
    decreases bs,
{
    if bs.len() == 0 {
        lemma_empty();
    } else {
        lemma_bindings_labels_sound(bs.drop_last(), si, env, denv, brk, next);
        if let Ok((code, _, n)) = jit_bindings(bs, si, env, denv, brk, next) {
            let (cp, env1, n1) = jit_bindings(bs.drop_last(), si, env, denv, brk, next)->Ok_0;
            let cur = si + bs.len() - 1;
            law_jit_labels_sound(bs.last().1, cur, env1, denv, brk, n1);
            let (cl, n2) = jit_code(bs.last().1, cur, env1, denv, brk, n1)->Ok_0;
            if n <= u64::MAX {
                lemma_sound_concat(cp, cl, next as int, n1 as int, n2 as int, brk);
                lemma_sound_push_plain(cp + cl, Instr::Mov(slot(cur), rax()), next as int, n as int, brk);
                assert(cp + cl + seq![Instr::Mov(slot(cur), rax())] =~= (cp + cl).push(Instr::Mov(slot(cur), rax())));
            }
        }
    }
}

/// A program compiled for the in-memory assembler assembles: it places each
/// label once and jumps only to labels it places.
pub proof fn law_jit_program_labels_sound(e: ExprV, input_val: i64)
    requires
        2 * expr_size(e) <= u64::MAX,
    ensures
        jit_code(e, 2, Map::empty(), Map::empty(), None, 0) matches Ok((code, n)) ==> labels_sound(
            seq![
                Instr::Mov(
                    crate::x86::Operand::Reg(crate::x86::Reg::Rdi),
                    crate::x86::Operand::Imm(input_val),
                ),
            ] + code + seq![Instr::Ret],
            0,
            n as int,
            None,
        ),
{
    law_jit_labels_sound(e, 2, Map::empty(), Map::empty(), None, 0);
    if let Ok((code, n)) = jit_code(e, 2, Map::empty(), Map::empty(), None, 0) {
        let head = seq![
            Instr::Mov(
                crate::x86::Operand::Reg(crate::x86::Reg::Rdi),
                crate::x86::Operand::Imm(input_val),
            ),
        ];
        let tail = seq![Instr::Ret];
        assert(label_free(head));
        assert(label_free(tail));
        lemma_sound_label_free(head, 0, None);
        lemma_sound_label_free(tail, n as int, None);
        lemma_sound_concat(head, code, 0, 0, n as int, None);
        lemma_sound_concat(head + code, tail, 0, n as int, n as int, None);
    }
}

/// The labels of the assembly text numbered after the counters `c0` up to
/// those of `c1`.
pub open spec fn text_range(c0: LabelCounters, c1: LabelCounters) -> Set<Label> {
    Set::new(
        |l: Label|
            match l {
                Label::IfElse(k) => c0.ifs < k <= c1.ifs,
                Label::IfEnd(k) => c0.ifs < k <= c1.ifs,
                Label::LoopStart(k) => c0.loops < k <= c1.loops,
                Label::LoopEnd(k) => c0.loops < k <= c1.loops,
                _ => false,
            },
    )
}

/// What makes assembly text assemble against the runtime: it places only
/// labels numbered after `c0` up to `c1`, none twice, and every jump goes to
/// a label it places, to `brk`, or to the runtime's error routine.
pub open spec fn text_labels_sound(
    code: Seq<Instr>,
    c0: LabelCounters,
    c1: LabelCounters,
    brk: Option<Label>,
) -> bool {
    &&& placed_labels(code).subset_of(text_range(c0, c1))
    &&& marks_distinct(code)
    &&& jump_labels(code).subset_of(
        placed_labels(code).union(break_set(brk)).insert(Label::SnekError),
    )
}

/// Counters that only grow from `c0` to `c1`.
pub open spec fn counters_le(c0: LabelCounters, c1: LabelCounters) -> bool {
    c0.ifs <= c1.ifs && c0.loops <= c1.loops
}

/// Code that places no label and jumps nowhere but, conditionally, to the
/// runtime's error routine.
pub open spec fn error_jumps_only(code: Seq<Instr>) -> bool {
    forall|k: int|
        0 <= k < code.len() ==> !(#[trigger] code[k] is Mark) && !(code[k] is Jmp) && (
        code[k] is J ==> code[k]->J_1 == Label::SnekError)
}

proof fn lemma_error_jumps_only(code: Seq<Instr>)
    requires
        error_jumps_only(code),
    ensures
        placed_labels(code) == Set::<Label>::empty(),
        jump_labels(code).subset_of(set![Label::SnekError]),
        marks_distinct(code),
    decreases code.len(),
{
    if code.len() > 0 {
        assert(error_jumps_only(code.drop_last()));
        lemma_error_jumps_only(code.drop_last());
        assert(code.drop_last().push(code.last()) =~= code);
        lemma_push(code.drop_last(), code.last());
        assert(mark_of(code.last()) =~= Set::<Label>::empty());
        assert(placed_labels(code) =~= Set::<Label>::empty());
    }
}

proof fn lemma_text_plain(code: Seq<Instr>, c: LabelCounters, brk: Option<Label>)
    requires
        error_jumps_only(code),
    ensures
        text_labels_sound(code, c, c, brk),
{
    lemma_error_jumps_only(code);
}

proof fn lemma_text_concat(
    a: Seq<Instr>,
    b: Seq<Instr>,
    c0: LabelCounters,
    c1: LabelCounters,
    c2: LabelCounters,
    brk: Option<Label>,
)
    requires
        counters_le(c0, c1),
        counters_le(c1, c2),
        text_labels_sound(a, c0, c1, brk),
        text_labels_sound(b, c1, c2, brk),
    ensures
        text_labels_sound(a + b, c0, c2, brk),
{
    lemma_labels_concat(a, b);
    assert(placed_labels(a).disjoint(placed_labels(b))) by {
        assert forall|l: Label| placed_labels(a).contains(l) implies !placed_labels(b).contains(
            l,
        ) by {
            assert(text_range(c0, c1).contains(l));
            if placed_labels(b).contains(l) {
                assert(text_range(c1, c2).contains(l));
            }
        }
    }
    assert(placed_labels(a + b).subset_of(text_range(c0, c2))) by {
        assert forall|l: Label| placed_labels(a + b).contains(l) implies text_range(
            c0,
            c2,
        ).contains(l) by {
            if placed_labels(a).contains(l) {
                assert(text_range(c0, c1).contains(l));
            } else {
                assert(text_range(c1, c2).contains(l));
            }
        }
    }
}

proof fn lemma_append_free(a: Seq<Instr>, f: Seq<Instr>)
    requires
        label_free(f),
    ensures
        placed_labels(a + f) == placed_labels(a),
        jump_labels(a + f) == jump_labels(a),
        marks_distinct(a) ==> marks_distinct(a + f),
{
    lemma_label_free(f);
    lemma_labels_concat(a, f);
    assert(placed_labels(a).union(placed_labels(f)) =~= placed_labels(a));
    assert(jump_labels(a).union(jump_labels(f)) =~= jump_labels(a));
}

proof fn lemma_prepend_free(f: Seq<Instr>, a: Seq<Instr>)
    requires
        label_free(f),
    ensures
        placed_labels(f + a) == placed_labels(a),
        jump_labels(f + a) == jump_labels(a),
        marks_distinct(a) ==> marks_distinct(f + a),
{
    lemma_label_free(f);
    lemma_labels_concat(f, a);
    assert(placed_labels(f).union(placed_labels(a)) =~= placed_labels(a));
    assert(jump_labels(f).union(jump_labels(a)) =~= jump_labels(a));
}

/// Putting instructions on lines of their own changes none of their labels.
proof fn lemma_indented(k: u8, s: Seq<Instr>)
    ensures
        placed_labels(indented(k, s)) == placed_labels(s),
        jump_labels(indented(k, s)) == jump_labels(s),
        marks_distinct(s) ==> marks_distinct(indented(k, s)),
    decreases s.len(),
{
    if s.len() == 0 {
        assert(s =~= Seq::<Instr>::empty());
        lemma_empty();
    } else {
        let p = s.drop_last();
        let x = s.last();
        lemma_indented(k, p);
        lemma_pair(Instr::NewLine(k), x);
        assert(mark_of(Instr::NewLine(k)) =~= Set::<Label>::empty());
        assert(jump_of(Instr::NewLine(k)) =~= Set::<Label>::empty());
        assert(mark_of(Instr::NewLine(k)).union(mark_of(x)) =~= mark_of(x));
        assert(jump_of(Instr::NewLine(k)).union(jump_of(x)) =~= jump_of(x));
        lemma_labels_concat(indented(k, p), seq![Instr::NewLine(k), x]);
        assert(p.push(x) =~= s);
        lemma_push(p, x);
    }
}

proof fn lemma_text_indented(
    k: u8,
    s: Seq<Instr>,
    c0: LabelCounters,
    c1: LabelCounters,
    brk: Option<Label>,
)
    requires
        text_labels_sound(s, c0, c1, brk),
    ensures
        text_labels_sound(indented(k, s), c0, c1, brk),
{
    lemma_indented(k, s);
}

proof fn lemma_text_newline(k: u8, c: LabelCounters, brk: Option<Label>)
    ensures
        label_free(seq![Instr::NewLine(k)]),
        text_labels_sound(seq![Instr::NewLine(k)], c, c, brk),
{
    assert(label_free(seq![Instr::NewLine(k)]));
    lemma_text_plain(seq![Instr::NewLine(k)], c, brk);
}

proof fn lemma_text_if(
    ca: Seq<Instr>,
    ct: Seq<Instr>,
    cf: Seq<Instr>,
    c: LabelCounters,
    c1: LabelCounters,
    c2: LabelCounters,
    c3: LabelCounters,
    n: i32,
    brk: Option<Label>,
)
    requires
        n == c.ifs + 1,
        counters_le(LabelCounters { ifs: n, loops: c.loops }, c1),
        counters_le(c1, c2),
        counters_le(c2, c3),
        text_labels_sound(ca, LabelCounters { ifs: n, loops: c.loops }, c1, brk),
        text_labels_sound(ct, c1, c2, brk),
        text_labels_sound(cf, c2, c3, brk),
    ensures
        text_labels_sound(if_text(n, ca, ct, cf), c, c3, brk),
{
    let c0 = LabelCounters { ifs: n, loops: c.loops };
    let fl = Label::IfElse(n);
    let done = Label::IfEnd(n);
    let i1 = Instr::Cmp(rax(), crate::x86::Operand::Imm(1));
    let i2 = Instr::J(crate::x86::Cond::E, fl);
    let p1 = seq![i1, i2];
    let p2 = seq![Instr::Jmp(done), Instr::Mark(fl)];
    let p3 = seq![Instr::Mark(done)];
    let n15 = seq![Instr::NewLine(15)];
    let n12 = seq![Instr::NewLine(12)];
    lemma_text_newline(15, c, brk);
    lemma_text_newline(12, c, brk);
    lemma_pair(i1, i2);
    lemma_pair(Instr::Jmp(done), Instr::Mark(fl));
    lemma_single(Instr::Mark(done));
    lemma_indented(15, p1);
    lemma_indented(15, p2);
    lemma_indented(15, p3);
    let q1 = indented(15, p1);
    let q2 = indented(15, p2);
    let q3 = indented(15, p3);
    assert(mark_of(i1) =~= Set::<Label>::empty());
    assert(placed_labels(q1) =~= Set::<Label>::empty());
    assert(jump_labels(q1) =~= set![fl]);
    assert(placed_labels(q2) =~= set![fl]);
    assert(jump_labels(q2) =~= set![done]);
    assert(marks_distinct(q2));
    assert(placed_labels(q3) =~= set![done]);
    assert(jump_labels(q3) =~= Set::<Label>::empty());
    let w0 = n15 + ca;
    lemma_prepend_free(n15, ca);
    let w1 = w0 + q1;
    lemma_labels_concat(w0, q1);
    assert(placed_labels(w1) =~= placed_labels(ca));
    let w1n = w1 + n15;
    lemma_append_free(w1, n15);
    let w2 = w1n + ct;
    assert(placed_labels(w1n).disjoint(placed_labels(ct))) by {
        assert forall|l: Label| placed_labels(w1n).contains(l) implies !placed_labels(
            ct,
        ).contains(l) by {
            assert(text_range(c0, c1).contains(l));
            if placed_labels(ct).contains(l) {
                assert(text_range(c1, c2).contains(l));
            }
        }
    }
    lemma_labels_concat(w1n, ct);
    let w3 = w2 + q2;
    assert(placed_labels(w2).disjoint(placed_labels(q2))) by {
        assert forall|l: Label| placed_labels(w2).contains(l) implies !placed_labels(
            q2,
        ).contains(l) by {
            if placed_labels(ca).contains(l) {
                assert(text_range(c0, c1).contains(l));
            } else {
                assert(text_range(c1, c2).contains(l));
            }
        }
    }
    lemma_labels_concat(w2, q2);
    assert(placed_labels(w3) =~= placed_labels(ca).union(placed_labels(ct)).union(set![fl]));
    let w3n = w3 + n15;
    lemma_append_free(w3, n15);
    let w4 = w3n + cf;
    assert(placed_labels(w3n).disjoint(placed_labels(cf))) by {
        assert forall|l: Label| placed_labels(w3n).contains(l) implies !placed_labels(
            cf,
        ).contains(l) by {
            if placed_labels(cf).contains(l) {
                assert(text_range(c2, c3).contains(l));
                if placed_labels(ca).contains(l) {
                    assert(text_range(c0, c1).contains(l));
                } else if placed_labels(ct).contains(l) {
                    assert(text_range(c1, c2).contains(l));
                }
            }
        }
    }
    lemma_labels_concat(w3n, cf);
    let w5 = w4 + q3;
    assert(placed_labels(w4).disjoint(placed_labels(q3))) by {
        assert forall|l: Label| placed_labels(w4).contains(l) implies !placed_labels(
            q3,
        ).contains(l) by {
            if placed_labels(ca).contains(l) {
                assert(text_range(c0, c1).contains(l));
            } else if placed_labels(ct).contains(l) {
                assert(text_range(c1, c2).contains(l));
            } else if placed_labels(cf).contains(l) {
                assert(text_range(c2, c3).contains(l));
            }
        }
    }
    lemma_labels_concat(w4, q3);
    let w6 = w5 + n12;
    lemma_append_free(w5, n12);
    assert(if_text(n, ca, ct, cf) == w6);
    assert(placed_labels(w6) =~= placed_labels(ca).union(placed_labels(ct)).union(
        placed_labels(cf),
    ).union(set![fl, done]));
    assert(jump_labels(w6) =~= jump_labels(ca).union(jump_labels(ct)).union(jump_labels(cf)).union(
        set![fl, done],
    ));
    assert(placed_labels(w6).subset_of(text_range(c, c3))) by {
        assert forall|l: Label| placed_labels(w6).contains(l) implies text_range(c, c3).contains(
            l,
        ) by {
            if placed_labels(ca).contains(l) {
                assert(text_range(c0, c1).contains(l));
            } else if placed_labels(ct).contains(l) {
                assert(text_range(c1, c2).contains(l));
            } else if placed_labels(cf).contains(l) {
                assert(text_range(c2, c3).contains(l));
            }
        }
    }
}

proof fn lemma_text_loop(
    cb: Seq<Instr>,
    c: LabelCounters,
    c1: LabelCounters,
    n: i32,
    brk: Option<Label>,
)
    requires
        n == c.loops + 1,
        counters_le(LabelCounters { ifs: c.ifs, loops: n }, c1),
        text_labels_sound(cb, LabelCounters { ifs: c.ifs, loops: n }, c1, Some(Label::LoopEnd(n))),
    ensures
        text_labels_sound(loop_text(n, cb), c, c1, brk),
{
    let c0 = LabelCounters { ifs: c.ifs, loops: n };
    let start = Label::LoopStart(n);
    let end = Label::LoopEnd(n);
    let p1 = seq![Instr::Mark(start)];
    let p2 = seq![Instr::Jmp(start), Instr::Mark(end)];
    let n15 = seq![Instr::NewLine(15)];
    let n12 = seq![Instr::NewLine(12)];
    lemma_text_newline(15, c, brk);
    lemma_text_newline(12, c, brk);
    lemma_single(Instr::Mark(start));
    lemma_pair(Instr::Jmp(start), Instr::Mark(end));
    lemma_indented(15, p1);
    lemma_indented(15, p2);
    let q1 = indented(15, p1);
    let q2 = indented(15, p2);
    assert(placed_labels(q1) =~= set![start]);
    assert(placed_labels(q2) =~= set![end]);
    assert(jump_labels(q2) =~= set![start]);
    let w0 = q1 + n15;
    lemma_append_free(q1, n15);
    assert(placed_labels(w0).disjoint(placed_labels(cb))) by {
        assert forall|l: Label| placed_labels(w0).contains(l) implies !placed_labels(
            cb,
        ).contains(l) by {
            if placed_labels(cb).contains(l) {
                assert(text_range(c0, c1).contains(l));
            }
        }
    }
    lemma_labels_concat(w0, cb);
    let w1 = w0 + cb;
    assert(placed_labels(w1).disjoint(placed_labels(q2))) by {
        assert forall|l: Label| placed_labels(w1).contains(l) implies !placed_labels(
            q2,
        ).contains(l) by {
            if placed_labels(cb).contains(l) {
                assert(text_range(c0, c1).contains(l));
            }
        }
    }
    lemma_labels_concat(w1, q2);
    let w2 = w1 + q2;
    let w = w2 + n12;
    lemma_append_free(w2, n12);
    assert(loop_text(n, cb) == w);
    assert(placed_labels(w) =~= placed_labels(cb).union(set![start, end]));
    assert(jump_labels(w) =~= jump_labels(cb).union(set![start]));
    assert(placed_labels(w).subset_of(text_range(c, c1))) by {
        assert forall|l: Label| placed_labels(w).contains(l) implies text_range(c, c1).contains(
            l,
        ) by {
            if placed_labels(cb).contains(l) {
                assert(text_range(c0, c1).contains(l));
            }
        }
    }
    assert(jump_labels(w).subset_of(
        placed_labels(w).union(break_set(brk)).insert(Label::SnekError),
    )) by {
        assert forall|l: Label| jump_labels(w).contains(l) implies placed_labels(w).union(
            break_set(brk),
        ).insert(Label::SnekError).contains(l) by {
            if jump_labels(cb).contains(l) {
                assert(placed_labels(cb).union(break_set(Some(end))).insert(
                    Label::SnekError,
                ).contains(l));
            }
        }
    }
}

proof fn lemma_text_break(l: Label, c0: LabelCounters, brk: Option<Label>)
    requires
        brk == Some(l),
    ensures
        text_labels_sound(indented(0, seq![Instr::Jmp(l)]), c0, c0, brk),
{
    lemma_single(Instr::Jmp(l));
    lemma_indented(0, seq![Instr::Jmp(l)]);
    assert(placed_labels(seq![Instr::Jmp(l)]) =~= Set::<Label>::empty());
}

/// Whatever compiles to assembly text, with counters that leave room for its
/// labels, takes each counter up by at most its number of `if` or `loop` nodes, and its code places
/// each label once, only labels numbered after the counters it was given,
/// and jumps only to labels it places, to the enclosing loop's exit, or to
/// the runtime's error routine.
pub proof fn law_text_labels_sound(
    e: ExprV,
    si: int,
    env: Map<Seq<char>, i32>,
    brk: Option<Label>,
    c: LabelCounters,
)
    requires
        c.ifs + if_count(e) <= i32::MAX,
        c.loops + loop_count(e) <= i32::MAX,
    ensures
        text_code(e, si, env, brk, c) matches Ok((code, c2)) ==> {
            &&& counters_le(c, c2)
            &&& c2.ifs <= c.ifs + if_count(e)
            &&& c2.loops <= c.loops + loop_count(e)
            &&& text_labels_sound(code, c, c2, brk)
        },
    decreases e,
{
    match e {
        ExprV::Number(_) | ExprV::Boolean(_) | ExprV::Id(_) => {
            if let Ok((code, c2)) = text_code(e, si, env, brk, c) {
                assert(error_jumps_only(code));
                lemma_text_plain(code, c, brk);
            }
        },
        ExprV::UnOp(op, a) => {
            law_text_labels_sound(*a, si, env, brk, c);
            if let Ok((code, c2)) = text_code(e, si, env, brk, c) {
                let ca = text_code(*a, si, env, brk, c)->Ok_0.0;
                let t = crate::textgen::unop_tail(op);
                assert(error_jumps_only(t));
                lemma_text_plain(t, c2, brk);
                lemma_text_indented(0, t, c2, c2, brk);
                lemma_text_concat(ca, indented(0, t), c, c2, c2, brk);
            }
        },
        ExprV::BinOp(op, a, b) => {
            law_text_labels_sound(*a, si, env, brk, c);
            if let Ok((code, c2)) = text_code(e, si, env, brk, c) {
                let (ca, c1) = text_code(*a, si, env, brk, c)->Ok_0;
                law_text_labels_sound(*b, si + 1, env, brk, c1);
                let cb = text_code(*b, si + 1, env, brk, c1)->Ok_0.0;
                let off = slot(si);
                let g = crate::textgen::number_guard();
                let (x, y) = if op == Op2::Equal {
                    (seq![Instr::Mov(off, rax())], crate::textgen::equal_tail(off))
                } else {
                    (g.push(Instr::Mov(off, rax())), g + crate::textgen::binop_tail(op, off))
                };
                assert(error_jumps_only(x));
                assert(error_jumps_only(y));
                lemma_text_plain(x, c1, brk);
                lemma_text_plain(y, c2, brk);
                lemma_text_indented(15, x, c1, c1, brk);
                lemma_text_indented(15, y, c2, c2, brk);
                let n15 = seq![Instr::NewLine(15)];
                let n12 = seq![Instr::NewLine(12)];
                lemma_text_newline(15, c, brk);
                lemma_text_newline(15, c1, brk);
                lemma_text_newline(12, c2, brk);
                let ix = indented(15, x);
                let iy = indented(15, y);
                lemma_text_concat(n15, ca, c, c, c1, brk);
                lemma_text_concat(n15 + ca, ix, c, c1, c1, brk);
                lemma_text_concat(n15 + ca + ix, n15, c, c1, c1, brk);
                lemma_text_concat(n15 + ca + ix + n15, cb, c, c1, c2, brk);
                lemma_text_concat(n15 + ca + ix + n15 + cb, iy, c, c2, c2, brk);
                lemma_text_concat(n15 + ca + ix + n15 + cb + iy, n12, c, c2, c2, brk);
                assert(code == n15 + ca + ix + n15 + cb + iy + n12);
            }
        },
        ExprV::If(a, t, f) => {
            let n = (c.ifs + 1) as i32;
            let c0 = LabelCounters { ifs: n, loops: c.loops };
            law_text_labels_sound(*a, si, env, brk, c0);
            if let Ok((code, c3)) = text_code(e, si, env, brk, c) {
                let (ca, c1) = text_code(*a, si, env, brk, c0)->Ok_0;
                law_text_labels_sound(*t, si, env, brk, c1);
                let (ct, c2) = text_code(*t, si, env, brk, c1)->Ok_0;
                law_text_labels_sound(*f, si, env, brk, c2);
                let cf = text_code(*f, si, env, brk, c2)->Ok_0.0;
                lemma_text_if(ca, ct, cf, c, c1, c2, c3, n, brk);
            }
        },
        ExprV::Loop(b) => {
            let n = (c.loops + 1) as i32;
            let c0 = LabelCounters { ifs: c.ifs, loops: n };
            law_text_labels_sound(*b, si, env, Some(Label::LoopEnd(n)), c0);
            if let Ok((code, c1)) = text_code(e, si, env, brk, c) {
                let cb = text_code(*b, si, env, Some(Label::LoopEnd(n)), c0)->Ok_0.0;
                lemma_text_loop(cb, c, c1, n, brk);
            }
        },
        ExprV::Break(a) => {
            law_text_labels_sound(*a, si, env, brk, c);
            if let Ok((code, c2)) = text_code(e, si, env, brk, c) {
                let ca = text_code(*a, si, env, brk, c)->Ok_0.0;
                lemma_text_break(brk->Some_0, c2, brk);
                lemma_text_concat(ca, indented(0, seq![Instr::Jmp(brk->Some_0)]), c, c2, c2, brk);
            }
        },
        ExprV::Assign(x, a) => {
            law_text_labels_sound(*a, si, env, brk, c);
            if let Ok((code, c2)) = text_code(e, si, env, brk, c) {
                let ca = text_code(*a, si, env, brk, c)->Ok_0.0;
                let st = seq![Instr::Mov(crate::x86::Operand::Stack(env[x]), rax())];
                assert(error_jumps_only(st));
                lemma_text_plain(st, c2, brk);
                lemma_text_indented(0, st, c2, c2, brk);
                lemma_text_concat(ca, indented(0, st), c, c2, c2, brk);
            }
        },
        ExprV::Block(es) => {
            lemma_text_items_sound(es, si, env, brk, c);
        },
        ExprV::Let(bs, body) => {
            lemma_text_bindings_sound(bs, si, env, brk, c);
            if let Ok((code, c2)) = text_code(e, si, env, brk, c) {
                let (cb, env2, c1) = text_bindings(bs, si, env, brk, c)->Ok_0;
                law_text_labels_sound(*body, si + bs.len(), env2, brk, c1);
                let cbody = text_code(*body, si + bs.len(), env2, brk, c1)->Ok_0.0;
                lemma_text_concat(cb, cbody, c, c1, c2, brk);
            }
        },
        ExprV::Define(_, a) => {
            law_text_labels_sound(*a, si, env, brk, c);
        },
    }
}

proof fn lemma_text_items_sound(
    es: Seq<ExprV>,
    si: int,
    env: Map<Seq<char>, i32>,
    brk: Option<Label>,
    c: LabelCounters,
)
    requires
        c.ifs + exprs_node_count(es, false) <= i32::MAX,
        c.loops + exprs_node_count(es, true) <= i32::MAX,
    ensures
        text_items(es, si, env, brk, c) matches Ok((code, c2)) ==> {
            &&& counters_le(c, c2)
            &&& c2.ifs <= c.ifs + exprs_node_count(es, false)
            &&& c2.loops <= c.loops + exprs_node_count(es, true)
            &&& text_labels_sound(code, c, c2, brk)
        },
    decreases es,
{
    if es.len() == 0 {
        lemma_empty();
    } else {
        lemma_text_items_sound(es.drop_last(), si, env, brk, c);
        if let Ok((code, c2)) = text_items(es, si, env, brk, c) {
            let (cp, c1) = text_items(es.drop_last(), si, env, brk, c)->Ok_0;
            law_text_labels_sound(es.last(), si, env, brk, c1);
            let cl = text_code(es.last(), si, env, brk, c1)->Ok_0.0;
            let sep = item_break(es.len() as int);
            assert(error_jumps_only(sep));
            lemma_text_plain(sep, c1, brk);
            lemma_text_concat(cp, sep, c, c1, c1, brk);
            lemma_text_concat(cp + sep, cl, c, c1, c2, brk);
        }
    }
}

proof fn lemma_text_bindings_sound(
    bs: Seq<(Seq<char>, ExprV)>,
    si: int,
    env: Map<Seq<char>, i32>,
    brk: Option<Label>,
    c: LabelCounters,
)
    requires
        c.ifs + bindings_node_count(bs, false) <= i32::MAX,
        c.loops + bindings_node_count(bs, true) <= i32::MAX,
    ensures
        text_bindings(bs, si, env, brk, c) matches Ok((code, _, c2)) ==> {
            &&& counters_le(c, c2)
            &&& c2.ifs <= c.ifs + bindings_node_count(bs, false)
            &&& c2.loops <= c.loops + bindings_node_count(bs, true)
            &&& text_labels_sound(code, c, c2, brk)
        },
    decreases bs,
{
    if bs.len() == 0 {
        lemma_empty();
    } else {
        lemma_text_bindings_sound(bs.drop_last(), si, env, brk, c);
        if let Ok((code, _, c2)) = text_bindings(bs, si, env, brk, c) {
            let (cp, env1, c1) = text_bindings(bs.drop_last(), si, env, brk, c)->Ok_0;
            let cur = si + bs.len() - 1;
            law_text_labels_sound(bs.last().1, cur, env1, brk, c1);
            let cl = text_code(bs.last().1, cur, env1, brk, c1)->Ok_0.0;
            let st = seq![Instr::Mov(slot(cur), rax())];
            assert(error_jumps_only(st));
            lemma_text_plain(st, c2, brk);
            lemma_text_indented(20, st, c2, c2, brk);
            let n20 = seq![Instr::NewLine(20)];
            let n16 = seq![Instr::NewLine(16)];
            lemma_text_newline(20, c1, brk);
            lemma_text_newline(16, c2, brk);
            lemma_text_concat(n20, cl, c1, c1, c2, brk);
            lemma_text_concat(n20 + cl, indented(20, st), c1, c2, c2, brk);
            lemma_text_concat(n20 + cl + indented(20, st), n16, c1, c2, c2, brk);
            assert(binding_text(cur, cl) == n20 + cl + indented(20, st) + n16);
            lemma_text_concat(cp, binding_text(cur, cl), c, c1, c2, brk);
        }
    }
}

/// A program compiled to assembly text assembles against the runtime: its
/// code places each label once, only labels numbered after the process's
/// counters `c0`, and jumps only to labels it places or to the runtime's
/// error routine.
pub proof fn law_text_program_labels_sound(e: ExprV, c0: LabelCounters)
    requires
        c0.ifs + if_count(e) <= i32::MAX,
        c0.loops + loop_count(e) <= i32::MAX,
    ensures
        text_code(e, 2, Map::empty(), None, c0) matches Ok((code, c))
            ==> text_labels_sound(code, c0, c, None),
{
    law_text_labels_sound(e, 2, Map::empty(), None, c0);
}

/// The counters of a run of compilations, each starting from those the one
/// before left, only grow.
proof fn lemma_counters_chain(cs: Seq<LabelCounters>, i: int, j: int)
    requires
        0 <= i <= j < cs.len(),
        forall|k: int| 0 <= k < cs.len() - 1 ==> counters_le(#[trigger] cs[k], cs[k + 1]),
    ensures
        counters_le(cs[i], cs[j]),
    decreases j - i,
{
    if i < j {
        lemma_counters_chain(cs, i + 1, j);
        assert(counters_le(cs[i], cs[i + 1]));
    }
}

/// Across any run of compilations to assembly text in which each starts from
/// the counters the one before left, and each leaves room for its labels, no
/// label is placed twice: each compilation places labels of its own.
pub proof fn law_text_labels_across_compilations(
    es: Seq<ExprV>,
    sis: Seq<int>,
    envs: Seq<Map<Seq<char>, i32>>,
    brks: Seq<Option<Label>>,
    cs: Seq<LabelCounters>,
    codes: Seq<Seq<Instr>>,
)
    requires
        sis.len() == es.len(),
        envs.len() == es.len(),
        brks.len() == es.len(),
        codes.len() == es.len(),
        cs.len() == es.len() + 1,
        forall|k: int|
            0 <= k < es.len() ==> #[trigger] text_code(es[k], sis[k], envs[k], brks[k], cs[k])
                == Ok::<(Seq<Instr>, LabelCounters), CompileErrorV>((codes[k], cs[k + 1])),
        forall|k: int|
            0 <= k < es.len() ==> (#[trigger] cs[k]).ifs + if_count(es[k]) <= i32::MAX
                && cs[k].loops + loop_count(es[k]) <= i32::MAX,
    ensures
        forall|k: int|
            0 <= k < es.len() ==> text_labels_sound(#[trigger] codes[k], cs[k], cs[k + 1], brks[k]),
        forall|i: int, j: int|
            0 <= i < j < es.len() ==> placed_labels(#[trigger] codes[i]).disjoint(
                placed_labels(#[trigger] codes[j]),
            ),
{
    assert forall|k: int| 0 <= k < es.len() implies text_labels_sound(
        #[trigger] codes[k],
        cs[k],
        cs[k + 1],
        brks[k],
    ) && counters_le(cs[k], cs[k + 1]) by {
        assert(cs[k].ifs + if_count(es[k]) <= i32::MAX);
        law_text_labels_sound(es[k], sis[k], envs[k], brks[k], cs[k]);
        assert(text_code(es[k], sis[k], envs[k], brks[k], cs[k]) == Ok::<
            (Seq<Instr>, LabelCounters),
            CompileErrorV,
        >((codes[k], cs[k + 1])));
    }
    assert forall|k: int| 0 <= k < cs.len() - 1 implies counters_le(#[trigger] cs[k], cs[k + 1]) by {
        assert(text_labels_sound(codes[k], cs[k], cs[k + 1], brks[k]));
    }
    assert forall|i: int, j: int| 0 <= i < j < es.len() implies placed_labels(
        #[trigger] codes[i],
    ).disjoint(placed_labels(#[trigger] codes[j])) by {
        lemma_counters_chain(cs, i + 1, j);
        assert(text_labels_sound(codes[i], cs[i], cs[i + 1], brks[i]));
        assert(text_labels_sound(codes[j], cs[j], cs[j + 1], brks[j]));
        assert forall|l: Label| placed_labels(codes[i]).contains(l) implies !placed_labels(
            codes[j],
        ).contains(l) by {
            assert(text_range(cs[i], cs[i + 1]).contains(l));
            if placed_labels(codes[j]).contains(l) {
                assert(text_range(cs[j], cs[j + 1]).contains(l));
            }
        }
    }
}

} // verus!
