use vstd::prelude::*;

verus! {

/// A reading of a sequence that, once its prefix fails, gives what the
/// prefix gave, fails on the whole sequence as soon as any prefix fails.
pub proof fn lemma_failure_persists<A, R>(
    f: spec_fn(Seq<A>) -> R,
    failed: spec_fn(R) -> bool,
    s: Seq<A>,
    k: int,
)
    requires
        0 <= k <= s.len(),
        failed(f(s.take(k))),
        forall|t: Seq<A>| 0 < t.len() && #[trigger] failed(f(t.drop_last())) ==> f(t) == f(t.drop_last()),
    ensures
        f(s) == f(s.take(k)),
    decreases s.len() - k,
{
    if k < s.len() {
        assert(s.take(k + 1).drop_last() =~= s.take(k));
        assert(f(s.take(k + 1)) == f(s.take(k)));
        lemma_failure_persists(f, failed, s, k + 1);
    } else {
        assert(s.take(k) =~= s);
    }
}

} // verus!
