//! Declarative semantics of the analysis: each derived relation is the least
//! fixpoint of its inference rules, defined by iterating an inflationary step
//! function from the base facts and taking membership at any round. Every
//! evaluation strategy is proved to return exactly these relations.

use vstd::prelude::*;
use crate::facts::AllFacts;

verus! {

// ------------------------------------------------------------------
// Sequence helpers shared by the fixpoint loops.

/// `b` extends `a`: `a` is an unchanged prefix of `b`.
pub open spec fn extends<T>(b: Seq<T>, a: Seq<T>) -> bool {
    a.len() <= b.len() && forall|k: int| 0 <= k < a.len() ==> b[k] == a[k]
}

pub proof fn lemma_extends_contains<T>(a: Seq<T>, b: Seq<T>)
    requires
        extends(b, a),
    ensures
        forall|t: T| a.contains(t) ==> b.contains(t),
{
    assert forall|t: T| a.contains(t) implies b.contains(t) by {
        let i = choose|i: int| 0 <= i < a.len() && a[i] == t;
        assert(b[i] == t);
    }
}

pub proof fn lemma_push_effect<T>(s: Seq<T>, x: T)
    ensures
        extends(s.push(x), s),
        s.push(x).contains(x),
        forall|t: T| s.contains(t) ==> s.push(x).contains(t),
{
    assert(s.push(x)[s.len() as int] == x);
    lemma_extends_contains(s, s.push(x));
}

/// Anything contained after a push was either present before or is the new element.
pub proof fn lemma_push_contains_inv<T>(s: Seq<T>, x: T)
    ensures
        forall|t: T| #[trigger] s.push(x).contains(t) ==> s.contains(t) || t == x,
{
    assert forall|t: T| s.push(x).contains(t) implies s.contains(t) || t == x by {
        let idx = choose|idx: int| 0 <= idx < s.push(x).len() && s.push(x)[idx] == t;
        if idx < s.len() {
            assert(s[idx] == t);
        }
    }
}

/// Appending an element that is not yet present keeps a sequence duplicate-free.
pub proof fn lemma_push_no_dup<T>(s: Seq<T>, x: T)
    requires
        s.no_duplicates(),
        !s.contains(x),
    ensures
        s.push(x).no_duplicates(),
{
    assert forall|i: int, j: int|
        0 <= i < s.push(x).len() && 0 <= j < s.push(x).len() && i != j
        implies s.push(x)[i] != s.push(x)[j] by {
        if i < s.len() && j < s.len() {
        } else if i == s.len() {
            assert(s.push(x)[j] == s[j]);
        } else {
            assert(s.push(x)[i] == s[i]);
        }
    }
}

/// A duplicate-free sequence drawn from a universe is no longer than the universe.
pub proof fn lemma_distinct_in_universe<T>(cur: Seq<T>, univ: Seq<T>)
    requires
        cur.no_duplicates(),
        forall|t: T| cur.contains(t) ==> univ.contains(t),
    ensures
        cur.len() <= univ.len(),
{
    broadcast use vstd::seq_lib::seq_to_set_is_finite;
    cur.unique_seq_to_set();
    univ.lemma_cardinality_of_set();
    assert(cur.to_set().subset_of(univ.to_set()));
    vstd::set_lib::lemma_len_subset(cur.to_set(), univ.to_set());
}

// ------------------------------------------------------------------
// Backward variable liveness.
//
// Rules (`used` is either the use or the drop-use input relation):
//   live(V, P) :- used(V, P).
//   live(V, P) :- live(V, Q), cfg_edge(P, Q), not defined(V, P).

/// One round of the liveness rules applied to `s`; tuples are (variable, point).
pub open spec fn live_step(
    defined: Seq<(usize, usize)>,
    edges: Seq<(usize, usize)>,
    s: Set<(usize, usize)>,
) -> Set<(usize, usize)> {
    s.union(Set::new(|t: (usize, usize)|
        !defined.contains(t)
        && exists|q: usize| edges.contains((t.1, q)) && s.contains((t.0, q))))
}

/// The tuples derivable in at most `n` rounds of the liveness rules.
pub open spec fn live_iter(
    used: Seq<(usize, usize)>,
    defined: Seq<(usize, usize)>,
    edges: Seq<(usize, usize)>,
    n: nat,
) -> Set<(usize, usize)>
    decreases n,
{
    if n == 0 {
        Set::new(|t: (usize, usize)| used.contains(t))
    } else {
        live_step(defined, edges, live_iter(used, defined, edges, (n - 1) as nat))
    }
}

/// Variable `v` is live on entry to point `p`.
pub open spec fn live(
    used: Seq<(usize, usize)>,
    defined: Seq<(usize, usize)>,
    edges: Seq<(usize, usize)>,
    v: usize,
    p: usize,
) -> bool {
    exists|n: nat| live_iter(used, defined, edges, n).contains((v, p))
}

/// A use fact makes the variable live at its own point.
pub proof fn lemma_live_base(
    used: Seq<(usize, usize)>,
    defined: Seq<(usize, usize)>,
    edges: Seq<(usize, usize)>,
    v: usize,
    p: usize,
)
    requires
        used.contains((v, p)),
    ensures
        live(used, defined, edges, v, p),
{
    assert(live_iter(used, defined, edges, 0).contains((v, p)));
}

pub proof fn lemma_live_iter_mono(
    used: Seq<(usize, usize)>,
    defined: Seq<(usize, usize)>,
    edges: Seq<(usize, usize)>,
    n: nat,
    m: nat,
    t: (usize, usize),
)
    requires
        n <= m,
        live_iter(used, defined, edges, n).contains(t),
    ensures
        live_iter(used, defined, edges, m).contains(t),
    decreases m,
{
    if n < m {
        lemma_live_iter_mono(used, defined, edges, n, (m - 1) as nat, t);
        assert(live_iter(used, defined, edges, m)
            == live_step(defined, edges, live_iter(used, defined, edges, (m - 1) as nat)));
    }
}

/// Liveness propagates backward along a CFG edge unless the variable is redefined.
pub proof fn lemma_live_step_rule(
    used: Seq<(usize, usize)>,
    defined: Seq<(usize, usize)>,
    edges: Seq<(usize, usize)>,
    v: usize,
    p: usize,
    q: usize,
)
    requires
        live(used, defined, edges, v, q),
        edges.contains((p, q)),
        !defined.contains((v, p)),
    ensures
        live(used, defined, edges, v, p),
{
    let n = choose|n: nat| live_iter(used, defined, edges, n).contains((v, q));
    let s = live_iter(used, defined, edges, n);
    let tt = (v, p);
    assert(edges.contains((tt.1, q)));
    assert(s.contains((tt.0, q)));
    assert(live_step(defined, edges, s).contains(tt));
    assert(live_iter(used, defined, edges, n + 1)
        == live_step(defined, edges, live_iter(used, defined, edges, ((n + 1) - 1) as nat)));
    assert(live_iter(used, defined, edges, n + 1).contains((v, p)));
}

/// Any set that contains the base facts and is closed under the propagation
/// rule contains everything derivable.
pub proof fn lemma_live_complete(
    used: Seq<(usize, usize)>,
    defined: Seq<(usize, usize)>,
    edges: Seq<(usize, usize)>,
    cur: Seq<(usize, usize)>,
    n: nat,
    v: usize,
    p: usize,
)
    requires
        forall|t: (usize, usize)| used.contains(t) ==> cur.contains(t),
        forall|v2: usize, p2: usize, q2: usize|
            #![trigger cur.contains((v2, q2)), edges.contains((p2, q2))]
            cur.contains((v2, q2)) && edges.contains((p2, q2)) && !defined.contains((v2, p2))
                ==> cur.contains((v2, p2)),
        live_iter(used, defined, edges, n).contains((v, p)),
    ensures
        cur.contains((v, p)),
    decreases n,
{
    let tt = (v, p);
    if n == 0 {
        assert(used.contains(tt));
    } else {
        let prev = live_iter(used, defined, edges, (n - 1) as nat);
        assert(live_iter(used, defined, edges, n) == live_step(defined, edges, prev));
        if prev.contains(tt) {
            lemma_live_complete(used, defined, edges, cur, (n - 1) as nat, v, p);
        } else {
            let q = choose|q: usize| edges.contains((tt.1, q)) && prev.contains((tt.0, q));
            lemma_live_complete(used, defined, edges, cur, (n - 1) as nat, v, q);
            assert(cur.contains((v, q)) && edges.contains((p, q)));
        }
    }
}

/// Inversion: a live variable is either used here, or propagated from some
/// successor while not being defined here.
pub proof fn lemma_live_inversion(
    used: Seq<(usize, usize)>,
    defined: Seq<(usize, usize)>,
    edges: Seq<(usize, usize)>,
    n: nat,
    v: usize,
    p: usize,
)
    requires
        live_iter(used, defined, edges, n).contains((v, p)),
    ensures
        used.contains((v, p))
        || (!defined.contains((v, p))
            && exists|q: usize| edges.contains((p, q)) && live(used, defined, edges, v, q)),
    decreases n,
{
    let tt = (v, p);
    if n > 0 {
        let prev = live_iter(used, defined, edges, (n - 1) as nat);
        assert(live_iter(used, defined, edges, n) == live_step(defined, edges, prev));
        if prev.contains(tt) {
            lemma_live_inversion(used, defined, edges, (n - 1) as nat, v, p);
        } else {
            let q = choose|q: usize| edges.contains((tt.1, q)) && prev.contains((tt.0, q));
            assert(live_iter(used, defined, edges, (n - 1) as nat).contains((v, q)));
            assert(live(used, defined, edges, v, q));
            assert(edges.contains((p, q)));
        }
    }
}

// ------------------------------------------------------------------
// Region liveness.

/// `p` occurs in the control-flow graph (as source or target of an edge).
pub open spec fn is_cfg_node(edges: Seq<(usize, usize)>, p: usize) -> bool {
    exists|q: usize| edges.contains((p, q)) || edges.contains((q, p))
}

/// Region `r` is live at point `p`: asserted by an input fact, universal
/// (free regions are valid at every point of the graph), or required by the
/// type of some live (or drop-live) variable.
pub open spec fn region_live(f: AllFacts, r: usize, p: usize) -> bool {
    f.region_live_at@.contains((r, p))
    || (f.universal_region@.contains(r) && is_cfg_node(f.cfg_edge@, p))
    || (exists|v: usize| f.var_uses_region@.contains((v, r))
            && live(f.var_used@, f.var_defined@, f.cfg_edge@, v, p))
    || (exists|v: usize| f.var_drops_region@.contains((v, r))
            && live(f.var_drop_used@, f.var_defined@, f.cfg_edge@, v, p))
}

// ------------------------------------------------------------------
// Point-wise region subset: the transitive (never reflexive) closure of
// `outlives` at each point, propagated along CFG edges between live regions.
//
// Rules:
//   subset(R1, R2, P) :- outlives(R1, R2, P), R1 != R2.
//   subset(R1, R3, P) :- subset(R1, R2, P), subset(R2, R3, P), R1 != R3.
//   subset(R1, R2, Q) :- subset(R1, R2, P), cfg_edge(P, Q),
//                        region_live(R1, Q), region_live(R2, Q).

/// One round of the subset rules; tuples are (region, region, point).
pub open spec fn subset_step(f: AllFacts, s: Set<(usize, usize, usize)>) -> Set<(usize, usize, usize)> {
    s.union(Set::new(|t: (usize, usize, usize)|
        (t.0 != t.1 && exists|rm: usize|
            #![trigger s.contains((t.0, rm, t.2))]
            s.contains((t.0, rm, t.2)) && s.contains((rm, t.1, t.2)))
        || (region_live(f, t.0, t.2) && region_live(f, t.1, t.2)
            && exists|q: usize| f.cfg_edge@.contains((q, t.2)) && s.contains((t.0, t.1, q)))))
}

pub open spec fn subset_iter(f: AllFacts, n: nat) -> Set<(usize, usize, usize)>
    decreases n,
{
    if n == 0 {
        Set::new(|t: (usize, usize, usize)| f.outlives@.contains(t) && t.0 != t.1)
    } else {
        subset_step(f, subset_iter(f, (n - 1) as nat))
    }
}

/// Region `r1`'s borrowed content may flow into `r2` at point `p`.
pub open spec fn subsets(f: AllFacts, r1: usize, r2: usize, p: usize) -> bool {
    exists|n: nat| subset_iter(f, n).contains((r1, r2, p))
}

pub proof fn lemma_subset_iter_mono(f: AllFacts, n: nat, m: nat, t: (usize, usize, usize))
    requires
        n <= m,
        subset_iter(f, n).contains(t),
    ensures
        subset_iter(f, m).contains(t),
    decreases m,
{
    if n < m {
        lemma_subset_iter_mono(f, n, (m - 1) as nat, t);
        assert(subset_iter(f, m) == subset_step(f, subset_iter(f, (m - 1) as nat)));
    }
}

/// A non-reflexive `outlives` fact is a subset fact at its point.
pub proof fn lemma_subset_base(f: AllFacts, r1: usize, r2: usize, p: usize)
    requires
        f.outlives@.contains((r1, r2, p)),
        r1 != r2,
    ensures
        subsets(f, r1, r2, p),
{
    assert(subset_iter(f, 0).contains((r1, r2, p)));
}

pub proof fn lemma_subsets_trans(f: AllFacts, a: usize, b: usize, c: usize, p: usize)
    requires
        subsets(f, a, b, p),
        subsets(f, b, c, p),
        a != c,
    ensures
        subsets(f, a, c, p),
{
    let n1 = choose|n: nat| subset_iter(f, n).contains((a, b, p));
    let n2 = choose|n: nat| subset_iter(f, n).contains((b, c, p));
    let m = if n1 > n2 { n1 } else { n2 };
    lemma_subset_iter_mono(f, n1, m, (a, b, p));
    lemma_subset_iter_mono(f, n2, m, (b, c, p));
    let s = subset_iter(f, m);
    let tt = (a, c, p);
    assert(s.contains((tt.0, b, tt.2)));
    assert(s.contains((b, tt.1, tt.2)));
    assert(subset_step(f, s).contains(tt));
    assert(subset_iter(f, m + 1) == subset_step(f, subset_iter(f, ((m + 1) - 1) as nat)));
    assert(subset_iter(f, m + 1).contains((a, c, p)));
}

pub proof fn lemma_subsets_edge(f: AllFacts, a: usize, b: usize, q: usize, p: usize)
    requires
        subsets(f, a, b, q),
        f.cfg_edge@.contains((q, p)),
        region_live(f, a, p),
        region_live(f, b, p),
    ensures
        subsets(f, a, b, p),
{
    let n = choose|n: nat| subset_iter(f, n).contains((a, b, q));
    let s = subset_iter(f, n);
    let tt = (a, b, p);
    assert(f.cfg_edge@.contains((q, tt.2)));
    assert(s.contains((tt.0, tt.1, q)));
    assert(subset_step(f, s).contains(tt));
    assert(subset_iter(f, n + 1) == subset_step(f, subset_iter(f, ((n + 1) - 1) as nat)));
    assert(subset_iter(f, n + 1).contains((a, b, p)));
}

/// Any relation containing the base tuples and closed under both derivation
/// rules contains the whole fixpoint.
pub proof fn lemma_subset_complete(
    f: AllFacts,
    cur: Seq<(usize, usize, usize)>,
    n: nat,
    r1: usize,
    r2: usize,
    p: usize,
)
    requires
        forall|a: usize, b: usize, q: usize|
            f.outlives@.contains((a, b, q)) && a != b ==> cur.contains((a, b, q)),
        forall|a: usize, b: usize, c: usize, q: usize|
            #![trigger cur.contains((a, b, q)), cur.contains((b, c, q))]
            cur.contains((a, b, q)) && cur.contains((b, c, q)) && a != c
                ==> cur.contains((a, c, q)),
        forall|a: usize, b: usize, q: usize, p2: usize|
            #![trigger cur.contains((a, b, q)), f.cfg_edge@.contains((q, p2))]
            cur.contains((a, b, q)) && f.cfg_edge@.contains((q, p2))
                && region_live(f, a, p2) && region_live(f, b, p2)
                ==> cur.contains((a, b, p2)),
        subset_iter(f, n).contains((r1, r2, p)),
    ensures
        cur.contains((r1, r2, p)),
    decreases n,
{
    let tt = (r1, r2, p);
    if n == 0 {
        assert(f.outlives@.contains(tt) && r1 != r2);
    } else {
        let prev = subset_iter(f, (n - 1) as nat);
        assert(subset_iter(f, n) == subset_step(f, prev));
        if prev.contains(tt) {
            lemma_subset_complete(f, cur, (n - 1) as nat, r1, r2, p);
        } else if tt.0 != tt.1 && exists|rm: usize|
            #![trigger prev.contains((tt.0, rm, tt.2))]
            prev.contains((tt.0, rm, tt.2)) && prev.contains((rm, tt.1, tt.2))
        {
            let rm = choose|rm: usize|
                #![trigger prev.contains((tt.0, rm, tt.2))]
                prev.contains((tt.0, rm, tt.2)) && prev.contains((rm, tt.1, tt.2));
            lemma_subset_complete(f, cur, (n - 1) as nat, r1, rm, p);
            lemma_subset_complete(f, cur, (n - 1) as nat, rm, r2, p);
            assert(cur.contains((r1, rm, p)) && cur.contains((rm, r2, p)));
        } else {
            let q = choose|q: usize| f.cfg_edge@.contains((q, tt.2)) && prev.contains((tt.0, tt.1, q));
            lemma_subset_complete(f, cur, (n - 1) as nat, r1, r2, q);
            assert(cur.contains((r1, r2, q)) && f.cfg_edge@.contains((q, p)));
        }
    }
}

/// No region is ever derived as a subset of itself, in any number of rounds.
pub proof fn lemma_subset_iter_irreflexive(f: AllFacts, n: nat)
    ensures
        forall|r: usize, p: usize| !subset_iter(f, n).contains((r, r, p)),
    decreases n,
{
    if n > 0 {
        lemma_subset_iter_irreflexive(f, (n - 1) as nat);
        let prev = subset_iter(f, (n - 1) as nat);
        assert(subset_iter(f, n) == subset_step(f, prev));
        assert forall|r: usize, p: usize| !subset_iter(f, n).contains((r, r, p)) by {
            let tt = (r, r, p);
            if subset_step(f, prev).contains(tt) {
                if !prev.contains(tt) {
                    if exists|q: usize| f.cfg_edge@.contains((q, tt.2)) && prev.contains((tt.0, tt.1, q)) {
                        let q = choose|q: usize|
                            f.cfg_edge@.contains((q, tt.2)) && prev.contains((tt.0, tt.1, q));
                        assert(!prev.contains((r, r, q)));
                    }
                }
            }
        }
    }
}

// ------------------------------------------------------------------
// Loan requirements: which regions still require a loan at a point.
//
// Rules:
//   requires(R, L, P) :- borrow_region(R, L, P).
//   requires(R2, L, P) :- requires(R1, L, P), subset(R1, R2, P).
//   requires(R, L, Q) :- requires(R, L, P), not killed(L, P),
//                        cfg_edge(P, Q), region_live(R, Q).

/// One round of the requirement rules; tuples are (region, loan, point).
pub open spec fn requires_step(f: AllFacts, s: Set<(usize, usize, usize)>) -> Set<(usize, usize, usize)> {
    s.union(Set::new(|t: (usize, usize, usize)|
        (exists|r1: usize|
            #![trigger s.contains((r1, t.1, t.2))]
            s.contains((r1, t.1, t.2)) && subsets(f, r1, t.0, t.2))
        || (region_live(f, t.0, t.2)
            && exists|q: usize|
                #![trigger s.contains((t.0, t.1, q))]
                s.contains((t.0, t.1, q)) && !f.killed@.contains((t.1, q))
                    && f.cfg_edge@.contains((q, t.2)))))
}

pub open spec fn requires_iter(f: AllFacts, n: nat) -> Set<(usize, usize, usize)>
    decreases n,
{
    if n == 0 {
        Set::new(|t: (usize, usize, usize)| f.borrow_region@.contains(t))
    } else {
        requires_step(f, requires_iter(f, (n - 1) as nat))
    }
}

/// Region `r` still requires loan `l` to be in force at point `p`.
pub open spec fn loan_requires(f: AllFacts, r: usize, l: usize, p: usize) -> bool {
    exists|n: nat| requires_iter(f, n).contains((r, l, p))
}

pub proof fn lemma_requires_iter_mono(f: AllFacts, n: nat, m: nat, t: (usize, usize, usize))
    requires
        n <= m,
        requires_iter(f, n).contains(t),
    ensures
        requires_iter(f, m).contains(t),
    decreases m,
{
    if n < m {
        lemma_requires_iter_mono(f, n, (m - 1) as nat, t);
        assert(requires_iter(f, m) == requires_step(f, requires_iter(f, (m - 1) as nat)));
    }
}

/// A borrow fact is a requirement at its creation point.
pub proof fn lemma_requires_base(f: AllFacts, r: usize, l: usize, p: usize)
    requires
        f.borrow_region@.contains((r, l, p)),
    ensures
        loan_requires(f, r, l, p),
{
    assert(requires_iter(f, 0).contains((r, l, p)));
}

pub proof fn lemma_requires_sub(f: AllFacts, r1: usize, r2: usize, l: usize, p: usize)
    requires
        loan_requires(f, r1, l, p),
        subsets(f, r1, r2, p),
    ensures
        loan_requires(f, r2, l, p),
{
    let n = choose|n: nat| requires_iter(f, n).contains((r1, l, p));
    let s = requires_iter(f, n);
    let tt = (r2, l, p);
    assert(s.contains((r1, tt.1, tt.2)));
    assert(subsets(f, r1, tt.0, tt.2));
    assert(requires_step(f, s).contains(tt));
    assert(requires_iter(f, n + 1) == requires_step(f, requires_iter(f, ((n + 1) - 1) as nat)));
    assert(requires_iter(f, n + 1).contains((r2, l, p)));
}

pub proof fn lemma_requires_edge(f: AllFacts, r: usize, l: usize, q: usize, p: usize)
    requires
        loan_requires(f, r, l, q),
        !f.killed@.contains((l, q)),
        f.cfg_edge@.contains((q, p)),
        region_live(f, r, p),
    ensures
        loan_requires(f, r, l, p),
{
    let n = choose|n: nat| requires_iter(f, n).contains((r, l, q));
    let s = requires_iter(f, n);
    let tt = (r, l, p);
    assert(s.contains((tt.0, tt.1, q)));
    assert(!f.killed@.contains((tt.1, q)) && f.cfg_edge@.contains((q, tt.2)));
    assert(requires_step(f, s).contains(tt));
    assert(requires_iter(f, n + 1) == requires_step(f, requires_iter(f, ((n + 1) - 1) as nat)));
    assert(requires_iter(f, n + 1).contains((r, l, p)));
}

pub proof fn lemma_requires_complete(
    f: AllFacts,
    cur: Seq<(usize, usize, usize)>,
    n: nat,
    r: usize,
    l: usize,
    p: usize,
)
    requires
        forall|t: (usize, usize, usize)| f.borrow_region@.contains(t) ==> cur.contains(t),
        forall|a: usize, b: usize, l2: usize, q: usize|
            #![trigger cur.contains((a, l2, q)), subsets(f, a, b, q)]
            cur.contains((a, l2, q)) && subsets(f, a, b, q) ==> cur.contains((b, l2, q)),
        forall|a: usize, l2: usize, q: usize, p2: usize|
            #![trigger cur.contains((a, l2, q)), f.cfg_edge@.contains((q, p2))]
            cur.contains((a, l2, q)) && !f.killed@.contains((l2, q))
                && f.cfg_edge@.contains((q, p2)) && region_live(f, a, p2)
                ==> cur.contains((a, l2, p2)),
        requires_iter(f, n).contains((r, l, p)),
    ensures
        cur.contains((r, l, p)),
    decreases n,
{
    let tt = (r, l, p);
    if n == 0 {
        assert(f.borrow_region@.contains(tt));
    } else {
        let prev = requires_iter(f, (n - 1) as nat);
        assert(requires_iter(f, n) == requires_step(f, prev));
        if prev.contains(tt) {
            lemma_requires_complete(f, cur, (n - 1) as nat, r, l, p);
        } else if exists|r1: usize|
            #![trigger prev.contains((r1, tt.1, tt.2))]
            prev.contains((r1, tt.1, tt.2)) && subsets(f, r1, tt.0, tt.2)
        {
            let r1 = choose|r1: usize|
                #![trigger prev.contains((r1, tt.1, tt.2))]
                prev.contains((r1, tt.1, tt.2)) && subsets(f, r1, tt.0, tt.2);
            lemma_requires_complete(f, cur, (n - 1) as nat, r1, l, p);
            assert(cur.contains((r1, l, p)) && subsets(f, r1, r, p));
        } else {
            let q = choose|q: usize|
                #![trigger prev.contains((tt.0, tt.1, q))]
                prev.contains((tt.0, tt.1, q)) && !f.killed@.contains((tt.1, q))
                    && f.cfg_edge@.contains((q, tt.2));
            lemma_requires_complete(f, cur, (n - 1) as nat, r, l, q);
            assert(cur.contains((r, l, q)) && f.cfg_edge@.contains((q, p)));
        }
    }
}

// ------------------------------------------------------------------
// Observable outputs of the flow-sensitive analysis.

/// Loan `l` is live at point `p`: some live region still requires it.
pub open spec fn loan_live(f: AllFacts, l: usize, p: usize) -> bool {
    exists|r: usize| loan_requires(f, r, l, p) && region_live(f, r, p)
}

/// A borrow-check violation: the loan is live at a point that invalidates it.
pub open spec fn is_error(f: AllFacts, p: usize, l: usize) -> bool {
    loan_live(f, l, p) && f.invalidates@.contains((p, l))
}

// ------------------------------------------------------------------
// Location-insensitive semantics: point ordering is erased, all `outlives`
// and `borrow_region` facts are merged as if they held everywhere at once.

/// One round of point-erased subset transitivity; tuples are (region, region).
pub open spec fn subset_li_step(s: Set<(usize, usize)>) -> Set<(usize, usize)> {
    s.union(Set::new(|t: (usize, usize)|
        t.0 != t.1 && exists|rm: usize|
            #![trigger s.contains((t.0, rm))]
            s.contains((t.0, rm)) && s.contains((rm, t.1))))
}

pub open spec fn subset_li_iter(f: AllFacts, n: nat) -> Set<(usize, usize)>
    decreases n,
{
    if n == 0 {
        Set::new(|t: (usize, usize)|
            t.0 != t.1 && exists|p: usize| f.outlives@.contains((t.0, t.1, p)))
    } else {
        subset_li_step(subset_li_iter(f, (n - 1) as nat))
    }
}

pub open spec fn subsets_li(f: AllFacts, r1: usize, r2: usize) -> bool {
    exists|n: nat| subset_li_iter(f, n).contains((r1, r2))
}

pub proof fn lemma_subset_li_iter_mono(f: AllFacts, n: nat, m: nat, t: (usize, usize))
    requires
        n <= m,
        subset_li_iter(f, n).contains(t),
    ensures
        subset_li_iter(f, m).contains(t),
    decreases m,
{
    if n < m {
        lemma_subset_li_iter_mono(f, n, (m - 1) as nat, t);
        assert(subset_li_iter(f, m) == subset_li_step(subset_li_iter(f, (m - 1) as nat)));
    }
}

pub proof fn lemma_subset_li_base(f: AllFacts, r1: usize, r2: usize, p: usize)
    requires
        f.outlives@.contains((r1, r2, p)),
        r1 != r2,
    ensures
        subsets_li(f, r1, r2),
{
    let tt = (r1, r2);
    assert(f.outlives@.contains((tt.0, tt.1, p)));
    assert(subset_li_iter(f, 0).contains(tt));
}

pub proof fn lemma_subsets_li_trans(f: AllFacts, a: usize, b: usize, c: usize)
    requires
        subsets_li(f, a, b),
        subsets_li(f, b, c),
        a != c,
    ensures
        subsets_li(f, a, c),
{
    let n1 = choose|n: nat| subset_li_iter(f, n).contains((a, b));
    let n2 = choose|n: nat| subset_li_iter(f, n).contains((b, c));
    let m = if n1 > n2 { n1 } else { n2 };
    lemma_subset_li_iter_mono(f, n1, m, (a, b));
    lemma_subset_li_iter_mono(f, n2, m, (b, c));
    let s = subset_li_iter(f, m);
    let tt = (a, c);
    assert(s.contains((tt.0, b)));
    assert(s.contains((b, tt.1)));
    assert(subset_li_step(s).contains(tt));
    assert(subset_li_iter(f, m + 1) == subset_li_step(subset_li_iter(f, ((m + 1) - 1) as nat)));
    assert(subset_li_iter(f, m + 1).contains((a, c)));
}

pub proof fn lemma_subset_li_complete(
    f: AllFacts,
    cur: Seq<(usize, usize)>,
    n: nat,
    r1: usize,
    r2: usize,
)
    requires
        forall|a: usize, b: usize, q: usize|
            #![trigger f.outlives@.contains((a, b, q))]
            f.outlives@.contains((a, b, q)) && a != b ==> cur.contains((a, b)),
        forall|a: usize, b: usize, c: usize|
            #![trigger cur.contains((a, b)), cur.contains((b, c))]
            cur.contains((a, b)) && cur.contains((b, c)) && a != c ==> cur.contains((a, c)),
        subset_li_iter(f, n).contains((r1, r2)),
    ensures
        cur.contains((r1, r2)),
    decreases n,
{
    let tt = (r1, r2);
    if n == 0 {
        let p = choose|p: usize| f.outlives@.contains((tt.0, tt.1, p));
        assert(f.outlives@.contains((r1, r2, p)));
    } else {
        let prev = subset_li_iter(f, (n - 1) as nat);
        assert(subset_li_iter(f, n) == subset_li_step(prev));
        if prev.contains(tt) {
            lemma_subset_li_complete(f, cur, (n - 1) as nat, r1, r2);
        } else {
            let rm = choose|rm: usize|
                #![trigger prev.contains((tt.0, rm))]
                prev.contains((tt.0, rm)) && prev.contains((rm, tt.1));
            lemma_subset_li_complete(f, cur, (n - 1) as nat, r1, rm);
            lemma_subset_li_complete(f, cur, (n - 1) as nat, rm, r2);
            assert(cur.contains((r1, rm)) && cur.contains((rm, r2)));
        }
    }
}

pub proof fn lemma_subset_li_iter_irreflexive(f: AllFacts, n: nat)
    ensures
        forall|r: usize| !subset_li_iter(f, n).contains((r, r)),
    decreases n,
{
    if n > 0 {
        lemma_subset_li_iter_irreflexive(f, (n - 1) as nat);
        let prev = subset_li_iter(f, (n - 1) as nat);
        assert(subset_li_iter(f, n) == subset_li_step(prev));
    }
}

/// One round of point-erased requirement propagation; tuples are (region, loan).
pub open spec fn req_li_step(f: AllFacts, s: Set<(usize, usize)>) -> Set<(usize, usize)> {
    s.union(Set::new(|t: (usize, usize)|
        exists|r1: usize|
            #![trigger s.contains((r1, t.1))]
            s.contains((r1, t.1)) && subsets_li(f, r1, t.0)))
}

pub open spec fn req_li_iter(f: AllFacts, n: nat) -> Set<(usize, usize)>
    decreases n,
{
    if n == 0 {
        Set::new(|t: (usize, usize)|
            exists|p: usize| f.borrow_region@.contains((t.0, t.1, p)))
    } else {
        req_li_step(f, req_li_iter(f, (n - 1) as nat))
    }
}

pub open spec fn loan_requires_li(f: AllFacts, r: usize, l: usize) -> bool {
    exists|n: nat| req_li_iter(f, n).contains((r, l))
}

pub proof fn lemma_req_li_iter_mono(f: AllFacts, n: nat, m: nat, t: (usize, usize))
    requires
        n <= m,
        req_li_iter(f, n).contains(t),
    ensures
        req_li_iter(f, m).contains(t),
    decreases m,
{
    if n < m {
        lemma_req_li_iter_mono(f, n, (m - 1) as nat, t);
        assert(req_li_iter(f, m) == req_li_step(f, req_li_iter(f, (m - 1) as nat)));
    }
}

pub proof fn lemma_req_li_base(f: AllFacts, r: usize, l: usize, p: usize)
    requires
        f.borrow_region@.contains((r, l, p)),
    ensures
        loan_requires_li(f, r, l),
{
    let tt = (r, l);
    assert(f.borrow_region@.contains((tt.0, tt.1, p)));
    assert(req_li_iter(f, 0).contains(tt));
}

pub proof fn lemma_req_li_sub(f: AllFacts, r1: usize, r2: usize, l: usize)
    requires
        loan_requires_li(f, r1, l),
        subsets_li(f, r1, r2),
    ensures
        loan_requires_li(f, r2, l),
{
    let n = choose|n: nat| req_li_iter(f, n).contains((r1, l));
    let s = req_li_iter(f, n);
    let tt = (r2, l);
    assert(s.contains((r1, tt.1)));
    assert(subsets_li(f, r1, tt.0));
    assert(req_li_step(f, s).contains(tt));
    assert(req_li_iter(f, n + 1) == req_li_step(f, req_li_iter(f, ((n + 1) - 1) as nat)));
    assert(req_li_iter(f, n + 1).contains((r2, l)));
}

pub proof fn lemma_req_li_complete(
    f: AllFacts,
    cur: Seq<(usize, usize)>,
    n: nat,
    r: usize,
    l: usize,
)
    requires
        forall|a: usize, l2: usize, q: usize|
            #![trigger f.borrow_region@.contains((a, l2, q))]
            f.borrow_region@.contains((a, l2, q)) ==> cur.contains((a, l2)),
        forall|a: usize, b: usize, l2: usize|
            #![trigger cur.contains((a, l2)), subsets_li(f, a, b)]
            cur.contains((a, l2)) && subsets_li(f, a, b) ==> cur.contains((b, l2)),
        req_li_iter(f, n).contains((r, l)),
    ensures
        cur.contains((r, l)),
    decreases n,
{
    let tt = (r, l);
    if n == 0 {
        let p = choose|p: usize| f.borrow_region@.contains((tt.0, tt.1, p));
        assert(f.borrow_region@.contains((r, l, p)));
    } else {
        let prev = req_li_iter(f, (n - 1) as nat);
        assert(req_li_iter(f, n) == req_li_step(f, prev));
        if prev.contains(tt) {
            lemma_req_li_complete(f, cur, (n - 1) as nat, r, l);
        } else {
            let r1 = choose|r1: usize|
                #![trigger prev.contains((r1, tt.1))]
                prev.contains((r1, tt.1)) && subsets_li(f, r1, tt.0);
            lemma_req_li_complete(f, cur, (n - 1) as nat, r1, l);
            assert(cur.contains((r1, l)) && subsets_li(f, r1, r));
        }
    }
}

/// Loan `l` is potentially live at `p` under the location-insensitive merge.
pub open spec fn loan_live_li(f: AllFacts, l: usize, p: usize) -> bool {
    exists|r: usize| loan_requires_li(f, r, l) && region_live(f, r, p)
}

/// A conflict reported by the location-insensitive strategy.
pub open spec fn is_error_li(f: AllFacts, p: usize, l: usize) -> bool {
    loan_live_li(f, l, p) && f.invalidates@.contains((p, l))
}

// ------------------------------------------------------------------
// The soundness ordering between the flow-sensitive and the
// location-insensitive semantics.

pub proof fn lemma_subset_to_li(f: AllFacts, n: nat, r1: usize, r2: usize, p: usize)
    requires
        subset_iter(f, n).contains((r1, r2, p)),
    ensures
        subsets_li(f, r1, r2),
    decreases n,
{
    let tt = (r1, r2, p);
    if n == 0 {
        lemma_subset_li_base(f, r1, r2, p);
    } else {
        let prev = subset_iter(f, (n - 1) as nat);
        assert(subset_iter(f, n) == subset_step(f, prev));
        if prev.contains(tt) {
            lemma_subset_to_li(f, (n - 1) as nat, r1, r2, p);
        } else if tt.0 != tt.1 && exists|rm: usize|
            #![trigger prev.contains((tt.0, rm, tt.2))]
            prev.contains((tt.0, rm, tt.2)) && prev.contains((rm, tt.1, tt.2))
        {
            let rm = choose|rm: usize|
                #![trigger prev.contains((tt.0, rm, tt.2))]
                prev.contains((tt.0, rm, tt.2)) && prev.contains((rm, tt.1, tt.2));
            lemma_subset_to_li(f, (n - 1) as nat, r1, rm, p);
            lemma_subset_to_li(f, (n - 1) as nat, rm, r2, p);
            lemma_subsets_li_trans(f, r1, rm, r2);
        } else {
            let q = choose|q: usize| f.cfg_edge@.contains((q, tt.2)) && prev.contains((tt.0, tt.1, q));
            lemma_subset_to_li(f, (n - 1) as nat, r1, r2, q);
        }
    }
}

pub proof fn lemma_requires_to_li(f: AllFacts, n: nat, r: usize, l: usize, p: usize)
    requires
        requires_iter(f, n).contains((r, l, p)),
    ensures
        loan_requires_li(f, r, l),
    decreases n,
{
    let tt = (r, l, p);
    if n == 0 {
        lemma_req_li_base(f, r, l, p);
    } else {
        let prev = requires_iter(f, (n - 1) as nat);
        assert(requires_iter(f, n) == requires_step(f, prev));
        if prev.contains(tt) {
            lemma_requires_to_li(f, (n - 1) as nat, r, l, p);
        } else if exists|r1: usize|
            #![trigger prev.contains((r1, tt.1, tt.2))]
            prev.contains((r1, tt.1, tt.2)) && subsets(f, r1, tt.0, tt.2)
        {
            let r1 = choose|r1: usize|
                #![trigger prev.contains((r1, tt.1, tt.2))]
                prev.contains((r1, tt.1, tt.2)) && subsets(f, r1, tt.0, tt.2);
            lemma_requires_to_li(f, (n - 1) as nat, r1, l, p);
            let m = choose|m: nat| subset_iter(f, m).contains((r1, r, p));
            lemma_subset_to_li(f, m, r1, r, p);
            lemma_req_li_sub(f, r1, r, l);
        } else {
            let q = choose|q: usize|
                #![trigger prev.contains((tt.0, tt.1, q))]
                prev.contains((tt.0, tt.1, q)) && !f.killed@.contains((tt.1, q))
                    && f.cfg_edge@.contains((q, tt.2));
            lemma_requires_to_li(f, (n - 1) as nat, r, l, q);
        }
    }
}

/// Every flow-sensitive error is also a location-insensitive error.
pub proof fn lemma_error_to_li(f: AllFacts, p: usize, l: usize)
    requires
        is_error(f, p, l),
    ensures
        is_error_li(f, p, l),
{
    let r = choose|r: usize| loan_requires(f, r, l, p) && region_live(f, r, p);
    let n = choose|n: nat| requires_iter(f, n).contains((r, l, p));
    lemma_requires_to_li(f, n, r, l, p);
    assert(loan_requires_li(f, r, l) && region_live(f, r, p));
}

} // verus!
