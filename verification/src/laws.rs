//! The cross-strategy guarantees of the analysis, stated and proved once for
//! all inputs.

use vstd::prelude::*;
use crate::facts::AllFacts;
use crate::sem::{
    live, live_iter, lemma_live_base, lemma_live_step_rule, lemma_live_inversion,
    subsets, subset_iter, lemma_subset_iter_irreflexive,
    subsets_li, subset_li_iter, lemma_subset_li_iter_irreflexive,
    is_error, is_error_li, lemma_error_to_li,
};
use crate::output::{Output, errors_exact, borrow_live_exact};

verus! {

/// Soundness ordering: every conflict found by the flow-sensitive semantics
/// (the `Naive` strategy's errors) is also found by the location-insensitive
/// overapproximation, at the same point.
pub proof fn lemma_soundness_ordering(f: AllFacts, p: usize, l: usize)
    requires
        is_error(f, p, l),
    ensures
        is_error_li(f, p, l),
{
    lemma_error_to_li(f, p, l);
}

/// Strategy equivalence: two outputs whose error and live-loan relations both
/// equal the flow-sensitive semantics — as `Naive`, `DatafrogOpt` and (for
/// errors) `Hybrid` ensure — agree point-by-point on those relations.
pub proof fn lemma_strategy_equivalence(f: AllFacts, a: Output, b: Output)
    requires
        errors_exact(f, a),
        borrow_live_exact(f, a),
        errors_exact(f, b),
        borrow_live_exact(f, b),
    ensures
        forall|p: usize, l: usize| a.errors@.contains((p, l)) == b.errors@.contains((p, l)),
        forall|p: usize, l: usize|
            a.borrow_live_at@.contains((p, l)) == b.borrow_live_at@.contains((p, l)),
{
    assert forall|p: usize, l: usize|
        a.errors@.contains((p, l)) == b.errors@.contains((p, l)) by {
        assert(a.errors@.contains((p, l)) == is_error(f, p, l));
        assert(b.errors@.contains((p, l)) == is_error(f, p, l));
    }
    assert forall|p: usize, l: usize|
        a.borrow_live_at@.contains((p, l)) == b.borrow_live_at@.contains((p, l)) by {
        assert(a.borrow_live_at@.contains((p, l)) == crate::sem::loan_live(f, l, p));
        assert(b.borrow_live_at@.contains((p, l)) == crate::sem::loan_live(f, l, p));
    }
}

/// No subset symmetry: no strategy ever derives a region as a subset of
/// itself, at any point, neither in the flow-sensitive nor in the
/// location-insensitive closure.
pub proof fn lemma_no_subset_symmetry(f: AllFacts, r: usize, p: usize)
    ensures
        !subsets(f, r, r, p),
        !subsets_li(f, r, r),
{
    if subsets(f, r, r, p) {
        let n = choose|n: nat| subset_iter(f, n).contains((r, r, p));
        lemma_subset_iter_irreflexive(f, n);
    }
    if subsets_li(f, r, r) {
        let n = choose|n: nat| subset_li_iter(f, n).contains((r, r));
        lemma_subset_li_iter_irreflexive(f, n);
    }
}

/// Liveness backward propagation: a variable used at `q` is live on entry to
/// every CFG predecessor `p` of `q` that does not redefine it.
pub proof fn lemma_liveness_backward_propagation(
    used: Seq<(usize, usize)>,
    defined: Seq<(usize, usize)>,
    edges: Seq<(usize, usize)>,
    v: usize,
    p: usize,
    q: usize,
)
    requires
        used.contains((v, q)),
        edges.contains((p, q)),
        !defined.contains((v, p)),
    ensures
        live(used, defined, edges, v, p),
{
    lemma_live_base(used, defined, edges, v, q);
    lemma_live_step_rule(used, defined, edges, v, p, q);
}

/// Kill by definition: a point that redefines a variable without using it
/// contributes no liveness for that variable, whatever its successors do.
pub proof fn lemma_kill_by_definition(
    used: Seq<(usize, usize)>,
    defined: Seq<(usize, usize)>,
    edges: Seq<(usize, usize)>,
    v: usize,
    p: usize,
)
    requires
        defined.contains((v, p)),
        !used.contains((v, p)),
    ensures
        !live(used, defined, edges, v, p),
{
    if live(used, defined, edges, v, p) {
        let n = choose|n: nat| live_iter(used, defined, edges, n).contains((v, p));
        lemma_live_inversion(used, defined, edges, n, v, p);
    }
}

} // verus!
