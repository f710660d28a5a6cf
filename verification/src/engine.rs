//! The fixpoint evaluation engine. Relations are duplicate-free vectors of
//! tuples grown append-only by rule-application rounds; at convergence each
//! relation is proved equal (as a set of tuples) to the declarative fixpoint
//! in `sem`. Termination of every fixpoint loop is proved by bounding the
//! relation inside an explicitly constructed finite universe of tuples.
//!
//! The same round functions serve two schedules: the naive schedule re-derives
//! from every tuple each round (`from = 0`), the incremental schedule only
//! from tuples added since the previous round (`from` = the previous length).

use vstd::prelude::*;
use crate::facts::AllFacts;
use crate::sem::{
    extends, lemma_extends_contains, lemma_push_effect, lemma_push_contains_inv, lemma_push_no_dup,
    lemma_distinct_in_universe,
    live, live_iter, lemma_live_base, lemma_live_step_rule, lemma_live_complete,
    region_live,
    subset_iter, requires_iter,
    subsets, lemma_subset_base, lemma_subsets_trans, lemma_subsets_edge,
    lemma_subset_complete,
    loan_requires, lemma_requires_base, lemma_requires_sub, lemma_requires_edge,
    lemma_requires_complete,
    loan_live, is_cfg_node, is_error,
};

verus! {

/// Linear membership test for a pair relation.
pub fn contains2(v: &Vec<(usize, usize)>, a: usize, b: usize) -> (r: bool)
    ensures
        r == v@.contains((a, b)),
{
    let mut i: usize = 0;
    while i < v.len()
        invariant
            i <= v@.len(),
            forall|j: int| 0 <= j < i ==> v@[j] != (a, b),
        decreases v@.len() - i,
    {
        if v[i].0 == a && v[i].1 == b {
            assert(v@[i as int] == (a, b));
            return true;
        }
        i += 1;
    }
    false
}

/// Linear membership test for a triple relation.
pub fn contains3(v: &Vec<(usize, usize, usize)>, a: usize, b: usize, c: usize) -> (r: bool)
    ensures
        r == v@.contains((a, b, c)),
{
    let mut i: usize = 0;
    while i < v.len()
        invariant
            i <= v@.len(),
            forall|j: int| 0 <= j < i ==> v@[j] != (a, b, c),
        decreases v@.len() - i,
    {
        if v[i].0 == a && v[i].1 == b && v[i].2 == c {
            assert(v@[i as int] == (a, b, c));
            return true;
        }
        i += 1;
    }
    false
}

// ------------------------------------------------------------------
// Finite tuple universes, used to bound every fixpoint loop.

/// `x` occurs as the first component of a pair in `s`.
pub open spec fn has_first2(s: Seq<(usize, usize)>, x: usize) -> bool {
    exists|k: int| 0 <= k < s.len() && s[k].0 == x
}

/// `x` occurs as the second component of a pair in `s`.
pub open spec fn has_second2(s: Seq<(usize, usize)>, x: usize) -> bool {
    exists|k: int| 0 <= k < s.len() && s[k].1 == x
}

/// `x` occurs as the given component of a triple in `s`.
pub open spec fn has_first3(s: Seq<(usize, usize, usize)>, x: usize) -> bool {
    exists|k: int| 0 <= k < s.len() && s[k].0 == x
}

pub open spec fn has_second3(s: Seq<(usize, usize, usize)>, x: usize) -> bool {
    exists|k: int| 0 <= k < s.len() && s[k].1 == x
}

pub open spec fn has_third3(s: Seq<(usize, usize, usize)>, x: usize) -> bool {
    exists|k: int| 0 <= k < s.len() && s[k].2 == x
}

pub(crate) fn push_firsts2(dst: &mut Vec<usize>, s: &Vec<(usize, usize)>)
    ensures
        forall|x: usize| old(dst)@.contains(x) ==> final(dst)@.contains(x),
        forall|x: usize| has_first2(s@, x) ==> final(dst)@.contains(x),
{
    let mut k: usize = 0;
    while k < s.len()
        invariant
            k <= s@.len(),
            forall|x: usize| old(dst)@.contains(x) ==> dst@.contains(x),
            forall|k2: int| 0 <= k2 < k ==> dst@.contains(s@[k2].0),
        decreases s@.len() - k,
    {
        proof {
            lemma_push_effect(dst@, s@[k as int].0);
        }
        let x = s[k].0;
        dst.push(x);
        k += 1;
    }
}

pub(crate) fn push_seconds2(dst: &mut Vec<usize>, s: &Vec<(usize, usize)>)
    ensures
        forall|x: usize| old(dst)@.contains(x) ==> final(dst)@.contains(x),
        forall|x: usize| has_second2(s@, x) ==> final(dst)@.contains(x),
{
    let mut k: usize = 0;
    while k < s.len()
        invariant
            k <= s@.len(),
            forall|x: usize| old(dst)@.contains(x) ==> dst@.contains(x),
            forall|k2: int| 0 <= k2 < k ==> dst@.contains(s@[k2].1),
        decreases s@.len() - k,
    {
        proof {
            lemma_push_effect(dst@, s@[k as int].1);
        }
        let x = s[k].1;
        dst.push(x);
        k += 1;
    }
}

pub(crate) fn push_firsts3(dst: &mut Vec<usize>, s: &Vec<(usize, usize, usize)>)
    ensures
        forall|x: usize| old(dst)@.contains(x) ==> final(dst)@.contains(x),
        forall|x: usize| has_first3(s@, x) ==> final(dst)@.contains(x),
{
    let mut k: usize = 0;
    while k < s.len()
        invariant
            k <= s@.len(),
            forall|x: usize| old(dst)@.contains(x) ==> dst@.contains(x),
            forall|k2: int| 0 <= k2 < k ==> dst@.contains(s@[k2].0),
        decreases s@.len() - k,
    {
        proof {
            lemma_push_effect(dst@, s@[k as int].0);
        }
        let x = s[k].0;
        dst.push(x);
        k += 1;
    }
}

pub(crate) fn push_seconds3(dst: &mut Vec<usize>, s: &Vec<(usize, usize, usize)>)
    ensures
        forall|x: usize| old(dst)@.contains(x) ==> final(dst)@.contains(x),
        forall|x: usize| has_second3(s@, x) ==> final(dst)@.contains(x),
{
    let mut k: usize = 0;
    while k < s.len()
        invariant
            k <= s@.len(),
            forall|x: usize| old(dst)@.contains(x) ==> dst@.contains(x),
            forall|k2: int| 0 <= k2 < k ==> dst@.contains(s@[k2].1),
        decreases s@.len() - k,
    {
        proof {
            lemma_push_effect(dst@, s@[k as int].1);
        }
        let x = s[k].1;
        dst.push(x);
        k += 1;
    }
}

pub(crate) fn push_thirds3(dst: &mut Vec<usize>, s: &Vec<(usize, usize, usize)>)
    ensures
        forall|x: usize| old(dst)@.contains(x) ==> final(dst)@.contains(x),
        forall|x: usize| has_third3(s@, x) ==> final(dst)@.contains(x),
{
    let mut k: usize = 0;
    while k < s.len()
        invariant
            k <= s@.len(),
            forall|x: usize| old(dst)@.contains(x) ==> dst@.contains(x),
            forall|k2: int| 0 <= k2 < k ==> dst@.contains(s@[k2].2),
        decreases s@.len() - k,
    {
        proof {
            lemma_push_effect(dst@, s@[k as int].2);
        }
        let x = s[k].2;
        dst.push(x);
        k += 1;
    }
}

/// All pairs over two component lists, prefixed by `base`.
#[verifier::loop_isolation(false)]
pub(crate) fn pair_universe(
    base: &Vec<(usize, usize)>,
    xs: &Vec<usize>,
    ys: &Vec<usize>,
) -> (univ: Vec<(usize, usize)>)
    ensures
        forall|t: (usize, usize)| base@.contains(t) ==> univ@.contains(t),
        forall|a: usize, b: usize|
            xs@.contains(a) && ys@.contains(b) ==> univ@.contains((a, b)),
{
    let mut univ: Vec<(usize, usize)> = Vec::new();
    let mut k: usize = 0;
    while k < base.len()
        invariant
            k <= base@.len(),
            forall|k2: int| 0 <= k2 < k ==> univ@.contains(base@[k2]),
        decreases base@.len() - k,
    {
        proof {
            lemma_push_effect(univ@, base@[k as int]);
        }
        let t = base[k];
        univ.push(t);
        k += 1;
    }
    assert forall|t: (usize, usize)| base@.contains(t) implies univ@.contains(t) by {
        let k2 = choose|k2: int| 0 <= k2 < base@.len() && base@[k2] == t;
        assert(univ@.contains(base@[k2]));
    }
    let mut i: usize = 0;
    while i < xs.len()
        invariant
            i <= xs@.len(),
            forall|t: (usize, usize)| base@.contains(t) ==> univ@.contains(t),
            forall|i2: int, j2: int|
                0 <= i2 < i && 0 <= j2 < ys@.len() ==> univ@.contains((xs@[i2], ys@[j2])),
        decreases xs@.len() - i,
    {
        let mut j: usize = 0;
        while j < ys.len()
            invariant
                j <= ys@.len(),
                forall|t: (usize, usize)| base@.contains(t) ==> univ@.contains(t),
                forall|i2: int, j2: int|
                    0 <= i2 < i && 0 <= j2 < ys@.len() ==> univ@.contains((xs@[i2], ys@[j2])),
                forall|j2: int| 0 <= j2 < j ==> univ@.contains((xs@[i as int], ys@[j2])),
            decreases ys@.len() - j,
        {
            let ghost pre = univ@;
            proof {
                lemma_push_effect(univ@, (xs@[i as int], ys@[j as int]));
            }
            let t = (xs[i], ys[j]);
            univ.push(t);
            proof {
                assert forall|i2: int, j2: int|
                    0 <= i2 < i && 0 <= j2 < ys@.len()
                    implies univ@.contains((xs@[i2], ys@[j2])) by {
                    assert(pre.contains((xs@[i2], ys@[j2])));
                }
            }
            j += 1;
        }
        i += 1;
    }
    assert forall|a: usize, b: usize|
        xs@.contains(a) && ys@.contains(b) implies univ@.contains((a, b)) by {
        let i2 = choose|i2: int| 0 <= i2 < xs@.len() && xs@[i2] == a;
        let j2 = choose|j2: int| 0 <= j2 < ys@.len() && ys@[j2] == b;
        assert(univ@.contains((xs@[i2], ys@[j2])));
    }
    univ
}

/// All triples over three component lists.
#[verifier::loop_isolation(false)]
fn triple_universe(
    xs: &Vec<usize>,
    ys: &Vec<usize>,
    zs: &Vec<usize>,
) -> (univ: Vec<(usize, usize, usize)>)
    ensures
        forall|a: usize, b: usize, c: usize|
            xs@.contains(a) && ys@.contains(b) && zs@.contains(c) ==> univ@.contains((a, b, c)),
{
    let mut univ: Vec<(usize, usize, usize)> = Vec::new();
    let mut i: usize = 0;
    while i < xs.len()
        invariant
            i <= xs@.len(),
            forall|i2: int, j2: int, k2: int|
                0 <= i2 < i && 0 <= j2 < ys@.len() && 0 <= k2 < zs@.len()
                    ==> univ@.contains((xs@[i2], ys@[j2], zs@[k2])),
        decreases xs@.len() - i,
    {
        let mut j: usize = 0;
        while j < ys.len()
            invariant
                j <= ys@.len(),
                forall|i2: int, j2: int, k2: int|
                    0 <= i2 < i && 0 <= j2 < ys@.len() && 0 <= k2 < zs@.len()
                        ==> univ@.contains((xs@[i2], ys@[j2], zs@[k2])),
                forall|j2: int, k2: int|
                    0 <= j2 < j && 0 <= k2 < zs@.len()
                        ==> univ@.contains((xs@[i as int], ys@[j2], zs@[k2])),
            decreases ys@.len() - j,
        {
            let mut k: usize = 0;
            while k < zs.len()
                invariant
                    k <= zs@.len(),
                    forall|i2: int, j2: int, k2: int|
                        0 <= i2 < i && 0 <= j2 < ys@.len() && 0 <= k2 < zs@.len()
                            ==> univ@.contains((xs@[i2], ys@[j2], zs@[k2])),
                    forall|j2: int, k2: int|
                        0 <= j2 < j && 0 <= k2 < zs@.len()
                            ==> univ@.contains((xs@[i as int], ys@[j2], zs@[k2])),
                    forall|k2: int|
                        0 <= k2 < k ==> univ@.contains((xs@[i as int], ys@[j as int], zs@[k2])),
                decreases zs@.len() - k,
            {
                let ghost pre = univ@;
                proof {
                    lemma_push_effect(univ@, (xs@[i as int], ys@[j as int], zs@[k as int]));
                }
                let t = (xs[i], ys[j], zs[k]);
                univ.push(t);
                proof {
                    assert forall|i2: int, j2: int, k2: int|
                        0 <= i2 < i && 0 <= j2 < ys@.len() && 0 <= k2 < zs@.len()
                        implies univ@.contains((xs@[i2], ys@[j2], zs@[k2])) by {
                        assert(pre.contains((xs@[i2], ys@[j2], zs@[k2])));
                    }
                    assert forall|j2: int, k2: int|
                        0 <= j2 < j && 0 <= k2 < zs@.len()
                        implies univ@.contains((xs@[i as int], ys@[j2], zs@[k2])) by {
                        assert(pre.contains((xs@[i as int], ys@[j2], zs@[k2])));
                    }
                }
                k += 1;
            }
            j += 1;
        }
        i += 1;
    }
    assert forall|a: usize, b: usize, c: usize|
        xs@.contains(a) && ys@.contains(b) && zs@.contains(c)
        implies univ@.contains((a, b, c)) by {
        let i2 = choose|i2: int| 0 <= i2 < xs@.len() && xs@[i2] == a;
        let j2 = choose|j2: int| 0 <= j2 < ys@.len() && ys@[j2] == b;
        let k2 = choose|k2: int| 0 <= k2 < zs@.len() && zs@[k2] == c;
        assert(univ@.contains((xs@[i2], ys@[j2], zs@[k2])));
    }
    univ
}

// ------------------------------------------------------------------
// Variable liveness fixpoint.

/// Every liveness tuple draws its components from the input facts.
pub open spec fn p_live(
    used: Seq<(usize, usize)>,
    edges: Seq<(usize, usize)>,
    t: (usize, usize),
) -> bool {
    used.contains(t) || (has_first2(used, t.0) && has_first2(edges, t.1))
}

/// The liveness propagation rule is satisfied for tuple `i` and edge `e`.
pub open spec fn live_ok(
    defined: Seq<(usize, usize)>,
    edges: Seq<(usize, usize)>,
    s: Seq<(usize, usize)>,
    i: int,
    e: int,
) -> bool {
    (edges[e].1 == s[i].1 && !defined.contains((s[i].0, edges[e].0)))
        ==> s.contains((s[i].0, edges[e].0))
}

proof fn lemma_live_ok_stable(
    defined: Seq<(usize, usize)>,
    edges: Seq<(usize, usize)>,
    s1: Seq<(usize, usize)>,
    s2: Seq<(usize, usize)>,
)
    requires
        extends(s2, s1),
    ensures
        forall|i: int, e: int|
            0 <= i < s1.len() && 0 <= e < edges.len() && live_ok(defined, edges, s1, i, e)
                ==> live_ok(defined, edges, s2, i, e),
{
    lemma_extends_contains(s1, s2);
}

/// One propagation round over tuples `from..` of `cur`.
#[verifier::loop_isolation(false)]
fn live_round(
    used: &Vec<(usize, usize)>,
    defined: &Vec<(usize, usize)>,
    edges: &Vec<(usize, usize)>,
    cur: &mut Vec<(usize, usize)>,
    from: usize,
) -> (changed: bool)
    requires
        from <= old(cur)@.len(),
        old(cur)@.no_duplicates(),
        forall|t: (usize, usize)| old(cur)@.contains(t) ==> p_live(used@, edges@, t),
        forall|t: (usize, usize)| old(cur)@.contains(t) ==> live(used@, defined@, edges@, t.0, t.1),
    ensures
        extends(final(cur)@, old(cur)@),
        final(cur)@.no_duplicates(),
        forall|t: (usize, usize)| final(cur)@.contains(t) ==> p_live(used@, edges@, t),
        forall|t: (usize, usize)|
            final(cur)@.contains(t) ==> live(used@, defined@, edges@, t.0, t.1),
        changed == (final(cur)@.len() > old(cur)@.len()),
        forall|i: int, e: int|
            from <= i < old(cur)@.len() && 0 <= e < edges@.len()
                ==> live_ok(defined@, edges@, final(cur)@, i, e),
{
    let len0 = cur.len();
    let mut i = from;
    while i < len0
        invariant
            from <= i <= len0,
            len0 == old(cur)@.len(),
            extends(cur@, old(cur)@),
            cur@.no_duplicates(),
            forall|t: (usize, usize)| cur@.contains(t) ==> p_live(used@, edges@, t),
            forall|t: (usize, usize)| cur@.contains(t) ==> live(used@, defined@, edges@, t.0, t.1),
            forall|i2: int, e2: int|
                from <= i2 < i && 0 <= e2 < edges@.len()
                    ==> live_ok(defined@, edges@, cur@, i2, e2),
        decreases len0 - i,
    {
        let v = cur[i].0;
        let q = cur[i].1;
        let mut e: usize = 0;
        while e < edges.len()
            invariant
                e <= edges@.len(),
                extends(cur@, old(cur)@),
                cur@.no_duplicates(),
                cur@[i as int] == (v, q),
                forall|t: (usize, usize)| cur@.contains(t) ==> p_live(used@, edges@, t),
                forall|t: (usize, usize)|
                    cur@.contains(t) ==> live(used@, defined@, edges@, t.0, t.1),
                forall|i2: int, e2: int|
                    from <= i2 < i && 0 <= e2 < edges@.len()
                        ==> live_ok(defined@, edges@, cur@, i2, e2),
                forall|e2: int| 0 <= e2 < e ==> live_ok(defined@, edges@, cur@, i as int, e2),
            decreases edges@.len() - e,
        {
            if edges[e].1 == q {
                let p = edges[e].0;
                if !contains2(defined, v, p) {
                    if !contains2(cur, v, p) {
                        proof {
                            assert(cur@.contains((v, q)));
                            lemma_live_step_rule(used@, defined@, edges@, v, p, q);
                            assert(has_first2(used@, v)) by {
                                if used@.contains((v, q)) {
                                    let k = choose|k: int|
                                        0 <= k < used@.len() && used@[k] == (v, q);
                                    assert(used@[k].0 == v);
                                }
                            }
                            assert(has_first2(edges@, p)) by {
                                assert(edges@[e as int].0 == p);
                            }
                            lemma_live_ok_stable(defined@, edges@, cur@, cur@.push((v, p)));
                            lemma_push_no_dup(cur@, (v, p));
                            lemma_push_effect(cur@, (v, p));
                            lemma_push_contains_inv(cur@, (v, p));
                        }
                        cur.push((v, p));
                    }
                    assert(cur@.contains((v, p)));
                }
            }
            proof {
                assert(live_ok(defined@, edges@, cur@, i as int, e as int));
            }
            e += 1;
        }
        i += 1;
    }
    cur.len() > len0
}

/// Compute the backward-liveness fixpoint of `used` facts along `edges`,
/// re-deriving from every tuple (`inc == false`) or only from newly added
/// tuples (`inc == true`) each round; both schedules reach the same fixpoint.
#[verifier::loop_isolation(false)]
pub fn live_fixpoint(
    used: &Vec<(usize, usize)>,
    defined: &Vec<(usize, usize)>,
    edges: &Vec<(usize, usize)>,
    inc: bool,
) -> (r: Vec<(usize, usize)>)
    ensures
        forall|v: usize, p: usize|
            r@.contains((v, p)) <==> live(used@, defined@, edges@, v, p),
{
    let mut vs: Vec<usize> = Vec::new();
    push_firsts2(&mut vs, used);
    let mut ps: Vec<usize> = Vec::new();
    push_firsts2(&mut ps, edges);
    let univ = pair_universe(used, &vs, &ps);

    let mut cur: Vec<(usize, usize)> = Vec::new();
    let mut k: usize = 0;
    while k < used.len()
        invariant
            k <= used@.len(),
            cur@.no_duplicates(),
            forall|t: (usize, usize)| cur@.contains(t) ==> used@.contains(t),
            forall|k2: int| 0 <= k2 < k ==> cur@.contains(used@[k2]),
        decreases used@.len() - k,
    {
        let t = used[k];
        if !contains2(&cur, t.0, t.1) {
            proof {
                lemma_push_no_dup(cur@, t);
                lemma_push_effect(cur@, t);
            }
            cur.push(t);
        }
        k += 1;
    }
    proof {
        assert forall|t: (usize, usize)| cur@.contains(t)
            implies live(used@, defined@, edges@, t.0, t.1) by {
            lemma_live_base(used@, defined@, edges@, t.0, t.1);
        }
        assert forall|t: (usize, usize)| used@.contains(t) implies cur@.contains(t) by {
            let k2 = choose|k2: int| 0 <= k2 < used@.len() && used@[k2] == t;
            assert(cur@.contains(used@[k2]));
        }
        assert forall|t: (usize, usize)| cur@.contains(t) implies univ@.contains(t) by {
            assert(used@.contains(t));
        }
        lemma_distinct_in_universe(cur@, univ@);
    }

    let mut frm: usize = 0;
    let mut again = true;
    while again
        invariant
            frm <= cur@.len(),
            cur@.len() <= univ@.len(),
            cur@.no_duplicates(),
            forall|t: (usize, usize)| cur@.contains(t) ==> p_live(used@, edges@, t),
            forall|t: (usize, usize)| used@.contains(t) ==> cur@.contains(t),
            forall|t: (usize, usize)| cur@.contains(t) ==> live(used@, defined@, edges@, t.0, t.1),
            forall|i2: int, e2: int|
                0 <= i2 < frm && 0 <= e2 < edges@.len()
                    ==> live_ok(defined@, edges@, cur@, i2, e2),
            !again ==> forall|i2: int, e2: int|
                0 <= i2 < cur@.len() && 0 <= e2 < edges@.len()
                    ==> live_ok(defined@, edges@, cur@, i2, e2),
        decreases univ@.len() - cur@.len() + (if again { 1int } else { 0int }),
    {
        let l0 = cur.len();
        let ghost pre = cur@;
        let changed = live_round(used, defined, edges, &mut cur, frm);
        proof {
            lemma_live_ok_stable(defined@, edges@, pre, cur@);
            lemma_extends_contains(pre, cur@);
            assert forall|t: (usize, usize)| cur@.contains(t) implies univ@.contains(t) by {
                if used@.contains(t) {
                } else {
                    let kv = choose|kv: int| 0 <= kv < used@.len() && used@[kv].0 == t.0;
                    let ke = choose|ke: int| 0 <= ke < edges@.len() && edges@[ke].0 == t.1;
                    assert(vs@.contains(used@[kv].0));
                    assert(ps@.contains(edges@[ke].0));
                }
            }
            lemma_distinct_in_universe(cur@, univ@);
        }
        frm = if inc { l0 } else { 0 };
        again = changed;
    }
    proof {
        assert forall|v: usize, p: usize|
            live(used@, defined@, edges@, v, p) implies cur@.contains((v, p)) by {
            let n = choose|n: nat| live_iter(used@, defined@, edges@, n).contains((v, p));
            assert forall|v2: usize, p2: usize, q2: usize|
                #![trigger cur@.contains((v2, q2)), edges@.contains((p2, q2))]
                cur@.contains((v2, q2)) && edges@.contains((p2, q2))
                    && !defined@.contains((v2, p2)) implies cur@.contains((v2, p2)) by {
                let i2 = choose|i2: int| 0 <= i2 < cur@.len() && cur@[i2] == (v2, q2);
                let e2 = choose|e2: int| 0 <= e2 < edges@.len() && edges@[e2] == (p2, q2);
                assert(live_ok(defined@, edges@, cur@, i2, e2));
            }
            lemma_live_complete(used@, defined@, edges@, cur@, n, v, p);
        }
    }
    cur
}

// ------------------------------------------------------------------
// Subset and requirement fixpoints.

/// Region names occurring in the `outlives` input.
pub open spec fn region_name(f: AllFacts, r: usize) -> bool {
    has_first3(f.outlives@, r) || has_second3(f.outlives@, r)
}

/// Points at which a subset tuple can arise.
pub open spec fn sub_point(f: AllFacts, p: usize) -> bool {
    has_third3(f.outlives@, p) || has_second2(f.cfg_edge@, p)
}

/// Every subset tuple draws its components from the input facts.
pub open spec fn p_sub(f: AllFacts, t: (usize, usize, usize)) -> bool {
    region_name(f, t.0) && region_name(f, t.1) && sub_point(f, t.2)
}

/// Regions that can carry a loan requirement.
pub open spec fn req_region(f: AllFacts, r: usize) -> bool {
    has_first3(f.borrow_region@, r) || region_name(f, r)
}

/// Points at which a requirement tuple can arise.
pub open spec fn req_point(f: AllFacts, p: usize) -> bool {
    has_third3(f.borrow_region@, p) || has_second2(f.cfg_edge@, p)
}

/// Every requirement tuple draws its components from the input facts.
pub open spec fn p_req(f: AllFacts, t: (usize, usize, usize)) -> bool {
    req_region(f, t.0) && has_second3(f.borrow_region@, t.1) && req_point(f, t.2)
}

/// The subset transitivity rule is satisfied for tuples `i` (left) and `j` (right).
pub open spec fn sub_trans_ok(s: Seq<(usize, usize, usize)>, i: int, j: int) -> bool {
    (s[i].1 == s[j].0 && s[i].2 == s[j].2 && s[i].0 != s[j].1)
        ==> s.contains((s[i].0, s[j].1, s[i].2))
}

/// The subset edge-propagation rule is satisfied for tuple `i` and edge `e`.
pub open spec fn sub_edge_ok(f: AllFacts, s: Seq<(usize, usize, usize)>, i: int, e: int) -> bool {
    (f.cfg_edge@[e].0 == s[i].2
        && region_live(f, s[i].0, f.cfg_edge@[e].1)
        && region_live(f, s[i].1, f.cfg_edge@[e].1))
        ==> s.contains((s[i].0, s[i].1, f.cfg_edge@[e].1))
}

/// The requirement subset rule is satisfied for requirement `i` and subset tuple `j`.
pub open spec fn req_sub_ok(
    req: Seq<(usize, usize, usize)>,
    sub: Seq<(usize, usize, usize)>,
    i: int,
    j: int,
) -> bool {
    (sub[j].0 == req[i].0 && sub[j].2 == req[i].2)
        ==> req.contains((sub[j].1, req[i].1, req[i].2))
}

/// The requirement edge rule is satisfied for requirement `i` and edge `e`.
pub open spec fn req_edge_ok(f: AllFacts, req: Seq<(usize, usize, usize)>, i: int, e: int) -> bool {
    (f.cfg_edge@[e].0 == req[i].2
        && !f.killed@.contains((req[i].1, req[i].2))
        && region_live(f, req[i].0, f.cfg_edge@[e].1))
        ==> req.contains((req[i].0, req[i].1, f.cfg_edge@[e].1))
}

proof fn lemma_carry_trans(
    s1: Seq<(usize, usize, usize)>,
    s2: Seq<(usize, usize, usize)>,
    lo: int,
    hi: int,
    jhi: int,
)
    requires
        extends(s2, s1),
        0 <= lo, hi <= s1.len(), jhi <= s1.len(),
        forall|i: int, j: int|
            lo <= i < hi && 0 <= j < jhi ==> sub_trans_ok(s1, i, j) && sub_trans_ok(s1, j, i),
    ensures
        forall|i: int, j: int|
            lo <= i < hi && 0 <= j < jhi ==> sub_trans_ok(s2, i, j) && sub_trans_ok(s2, j, i),
{
    lemma_extends_contains(s1, s2);
    assert forall|i: int, j: int| lo <= i < hi && 0 <= j < jhi
        implies sub_trans_ok(s2, i, j) && sub_trans_ok(s2, j, i) by {
        assert(sub_trans_ok(s1, i, j) && sub_trans_ok(s1, j, i));
        assert(s2[i] == s1[i] && s2[j] == s1[j]);
    }
}

proof fn lemma_carry_sub_edge(
    f: AllFacts,
    s1: Seq<(usize, usize, usize)>,
    s2: Seq<(usize, usize, usize)>,
    lo: int,
    hi: int,
    ehi: int,
)
    requires
        extends(s2, s1),
        0 <= lo, hi <= s1.len(), ehi <= f.cfg_edge@.len(),
        forall|i: int, e: int| lo <= i < hi && 0 <= e < ehi ==> sub_edge_ok(f, s1, i, e),
    ensures
        forall|i: int, e: int| lo <= i < hi && 0 <= e < ehi ==> sub_edge_ok(f, s2, i, e),
{
    lemma_extends_contains(s1, s2);
    assert forall|i: int, e: int| lo <= i < hi && 0 <= e < ehi
        implies sub_edge_ok(f, s2, i, e) by {
        assert(sub_edge_ok(f, s1, i, e));
        assert(s2[i] == s1[i]);
    }
}

proof fn lemma_carry_req_sub(
    s1: Seq<(usize, usize, usize)>,
    s2: Seq<(usize, usize, usize)>,
    sub: Seq<(usize, usize, usize)>,
    ilo: int,
    ihi: int,
    jlo: int,
    jhi: int,
)
    requires
        extends(s2, s1),
        0 <= ilo, ihi <= s1.len(), 0 <= jlo, jhi <= sub.len(),
        forall|i: int, j: int|
            ilo <= i < ihi && jlo <= j < jhi ==> req_sub_ok(s1, sub, i, j),
    ensures
        forall|i: int, j: int|
            ilo <= i < ihi && jlo <= j < jhi ==> req_sub_ok(s2, sub, i, j),
{
    lemma_extends_contains(s1, s2);
    assert forall|i: int, j: int| ilo <= i < ihi && jlo <= j < jhi
        implies req_sub_ok(s2, sub, i, j) by {
        assert(req_sub_ok(s1, sub, i, j));
        assert(s2[i] == s1[i]);
    }
}

proof fn lemma_carry_req_edge(
    f: AllFacts,
    s1: Seq<(usize, usize, usize)>,
    s2: Seq<(usize, usize, usize)>,
    lo: int,
    hi: int,
    ehi: int,
)
    requires
        extends(s2, s1),
        0 <= lo, hi <= s1.len(), ehi <= f.cfg_edge@.len(),
        forall|i: int, e: int| lo <= i < hi && 0 <= e < ehi ==> req_edge_ok(f, s1, i, e),
    ensures
        forall|i: int, e: int| lo <= i < hi && 0 <= e < ehi ==> req_edge_ok(f, s2, i, e),
{
    lemma_extends_contains(s1, s2);
    assert forall|i: int, e: int| lo <= i < hi && 0 <= e < ehi
        implies req_edge_ok(f, s2, i, e) by {
        assert(req_edge_ok(f, s1, i, e));
        assert(s2[i] == s1[i]);
    }
}

/// One round of the subset rules over tuples `from..` of `cur`.
#[verifier::loop_isolation(false)]
fn subset_round(
    f: &AllFacts,
    rlv: &Vec<(usize, usize)>,
    cur: &mut Vec<(usize, usize, usize)>,
    from: usize,
) -> (changed: bool)
    requires
        forall|r: usize, p: usize| rlv@.contains((r, p)) <==> region_live(*f, r, p),
        from <= old(cur)@.len(),
        old(cur)@.no_duplicates(),
        forall|t: (usize, usize, usize)| old(cur)@.contains(t) ==> p_sub(*f, t),
        forall|t: (usize, usize, usize)| old(cur)@.contains(t) ==> subsets(*f, t.0, t.1, t.2),
    ensures
        extends(final(cur)@, old(cur)@),
        final(cur)@.no_duplicates(),
        forall|t: (usize, usize, usize)| final(cur)@.contains(t) ==> p_sub(*f, t),
        forall|t: (usize, usize, usize)| final(cur)@.contains(t) ==> subsets(*f, t.0, t.1, t.2),
        changed == (final(cur)@.len() > old(cur)@.len()),
        forall|i: int, j: int|
            from <= i < old(cur)@.len() && 0 <= j < old(cur)@.len()
                ==> sub_trans_ok(final(cur)@, i, j) && sub_trans_ok(final(cur)@, j, i),
        forall|i: int, e: int|
            from <= i < old(cur)@.len() && 0 <= e < f.cfg_edge@.len()
                ==> sub_edge_ok(*f, final(cur)@, i, e),
{
    let len0 = cur.len();
    let mut i = from;
    while i < len0
        invariant
            from <= i <= len0,
            len0 == old(cur)@.len(),
            extends(cur@, old(cur)@),
            cur@.no_duplicates(),
            forall|t: (usize, usize, usize)| cur@.contains(t) ==> p_sub(*f, t),
            forall|t: (usize, usize, usize)| cur@.contains(t) ==> subsets(*f, t.0, t.1, t.2),
            forall|i2: int, j2: int|
                from <= i2 < i && 0 <= j2 < len0
                    ==> sub_trans_ok(cur@, i2, j2) && sub_trans_ok(cur@, j2, i2),
        decreases len0 - i,
    {
        let a = cur[i].0;
        let b = cur[i].1;
        let pp = cur[i].2;
        let mut j: usize = 0;
        while j < len0
            invariant
                j <= len0,
                extends(cur@, old(cur)@),
                cur@.no_duplicates(),
                cur@[i as int] == (a, b, pp),
                forall|t: (usize, usize, usize)| cur@.contains(t) ==> p_sub(*f, t),
                forall|t: (usize, usize, usize)| cur@.contains(t) ==> subsets(*f, t.0, t.1, t.2),
                forall|i2: int, j2: int|
                    from <= i2 < i && 0 <= j2 < len0
                        ==> sub_trans_ok(cur@, i2, j2) && sub_trans_ok(cur@, j2, i2),
                forall|j2: int|
                    0 <= j2 < j ==> sub_trans_ok(cur@, i as int, j2) && sub_trans_ok(cur@, j2, i as int),
            decreases len0 - j,
        {
            let c = cur[j].0;
            let d = cur[j].1;
            let qq = cur[j].2;
            if b == c && pp == qq && a != d {
                if !contains3(cur, a, d, pp) {
                    proof {
                        assert(cur@.contains((a, b, pp)) && cur@.contains((c, d, qq)));
                        assert(p_sub(*f, (a, b, pp)) && p_sub(*f, (c, d, qq)));
                        assert(p_sub(*f, (a, d, pp)));
                        lemma_subsets_trans(*f, a, b, d, pp);
                        lemma_carry_trans(cur@, cur@.push((a, d, pp)), from as int, i as int, len0 as int);
                        lemma_carry_trans(cur@, cur@.push((a, d, pp)), i as int, i + 1, j as int);
                        lemma_push_no_dup(cur@, (a, d, pp));
                        lemma_push_effect(cur@, (a, d, pp));
                        lemma_push_contains_inv(cur@, (a, d, pp));
                    }
                    cur.push((a, d, pp));
                }
                assert(cur@.contains((a, d, pp)));
            }
            if d == a && qq == pp && c != b {
                if !contains3(cur, c, b, qq) {
                    proof {
                        assert(cur@.contains((a, b, pp)) && cur@.contains((c, d, qq)));
                        assert(p_sub(*f, (a, b, pp)) && p_sub(*f, (c, d, qq)));
                        assert(p_sub(*f, (c, b, qq)));
                        lemma_subsets_trans(*f, c, d, b, qq);
                        lemma_carry_trans(cur@, cur@.push((c, b, qq)), from as int, i as int, len0 as int);
                        lemma_carry_trans(cur@, cur@.push((c, b, qq)), i as int, i + 1, j as int);
                        lemma_push_no_dup(cur@, (c, b, qq));
                        lemma_push_effect(cur@, (c, b, qq));
                        lemma_push_contains_inv(cur@, (c, b, qq));
                    }
                    cur.push((c, b, qq));
                }
                assert(cur@.contains((c, b, qq)));
            }
            proof {
                assert(sub_trans_ok(cur@, i as int, j as int));
                assert(sub_trans_ok(cur@, j as int, i as int));
            }
            j += 1;
        }
        i += 1;
    }
    let mut i = from;
    while i < len0
        invariant
            from <= i <= len0,
            len0 == old(cur)@.len(),
            extends(cur@, old(cur)@),
            cur@.no_duplicates(),
            forall|t: (usize, usize, usize)| cur@.contains(t) ==> p_sub(*f, t),
            forall|t: (usize, usize, usize)| cur@.contains(t) ==> subsets(*f, t.0, t.1, t.2),
            forall|i2: int, j2: int|
                from <= i2 < len0 && 0 <= j2 < len0
                    ==> sub_trans_ok(cur@, i2, j2) && sub_trans_ok(cur@, j2, i2),
            forall|i2: int, e2: int|
                from <= i2 < i && 0 <= e2 < f.cfg_edge@.len() ==> sub_edge_ok(*f, cur@, i2, e2),
        decreases len0 - i,
    {
        let a = cur[i].0;
        let b = cur[i].1;
        let pp = cur[i].2;
        let mut e: usize = 0;
        while e < f.cfg_edge.len()
            invariant
                e <= f.cfg_edge@.len(),
                extends(cur@, old(cur)@),
                cur@.no_duplicates(),
                cur@[i as int] == (a, b, pp),
                forall|t: (usize, usize, usize)| cur@.contains(t) ==> p_sub(*f, t),
                forall|t: (usize, usize, usize)| cur@.contains(t) ==> subsets(*f, t.0, t.1, t.2),
                forall|i2: int, j2: int|
                    from <= i2 < len0 && 0 <= j2 < len0
                        ==> sub_trans_ok(cur@, i2, j2) && sub_trans_ok(cur@, j2, i2),
                forall|i2: int, e2: int|
                    from <= i2 < i && 0 <= e2 < f.cfg_edge@.len() ==> sub_edge_ok(*f, cur@, i2, e2),
                forall|e2: int| 0 <= e2 < e ==> sub_edge_ok(*f, cur@, i as int, e2),
            decreases f.cfg_edge@.len() - e,
        {
            if f.cfg_edge[e].0 == pp {
                let tgt = f.cfg_edge[e].1;
                if contains2(rlv, a, tgt) && contains2(rlv, b, tgt) {
                    if !contains3(cur, a, b, tgt) {
                        proof {
                            assert(cur@.contains((a, b, pp)));
                            assert(p_sub(*f, (a, b, pp)));
                            assert(f.cfg_edge@[e as int] == (pp, tgt));
                            assert(f.cfg_edge@.contains((pp, tgt)));
                            lemma_subsets_edge(*f, a, b, pp, tgt);
                            assert(has_second2(f.cfg_edge@, tgt)) by {
                                assert(f.cfg_edge@[e as int].1 == tgt);
                            }
                            assert(p_sub(*f, (a, b, tgt)));
                            lemma_carry_trans(cur@, cur@.push((a, b, tgt)), from as int, len0 as int, len0 as int);
                            lemma_carry_sub_edge(*f, cur@, cur@.push((a, b, tgt)), from as int, i as int, f.cfg_edge@.len() as int);
                            lemma_carry_sub_edge(*f, cur@, cur@.push((a, b, tgt)), i as int, i + 1, e as int);
                            lemma_push_no_dup(cur@, (a, b, tgt));
                            lemma_push_effect(cur@, (a, b, tgt));
                            lemma_push_contains_inv(cur@, (a, b, tgt));
                        }
                        cur.push((a, b, tgt));
                    }
                    assert(cur@.contains((a, b, tgt)));
                }
            }
            proof {
                assert(sub_edge_ok(*f, cur@, i as int, e as int));
            }
            e += 1;
        }
        i += 1;
    }
    cur.len() > len0
}

/// One round of the requirement rules over requirements `from..` of `req`,
/// also firing the subset rule against subset tuples `sub_from..` of `sub`.
#[verifier::loop_isolation(false)]
fn requires_round(
    f: &AllFacts,
    rlv: &Vec<(usize, usize)>,
    sub: &Vec<(usize, usize, usize)>,
    sub_from: usize,
    req: &mut Vec<(usize, usize, usize)>,
    from: usize,
) -> (changed: bool)
    requires
        forall|r: usize, p: usize| rlv@.contains((r, p)) <==> region_live(*f, r, p),
        sub_from <= sub@.len(),
        forall|t: (usize, usize, usize)| sub@.contains(t) ==> p_sub(*f, t),
        forall|t: (usize, usize, usize)| sub@.contains(t) ==> subsets(*f, t.0, t.1, t.2),
        from <= old(req)@.len(),
        old(req)@.no_duplicates(),
        forall|t: (usize, usize, usize)| old(req)@.contains(t) ==> p_req(*f, t),
        forall|t: (usize, usize, usize)| old(req)@.contains(t) ==> loan_requires(*f, t.0, t.1, t.2),
    ensures
        extends(final(req)@, old(req)@),
        final(req)@.no_duplicates(),
        forall|t: (usize, usize, usize)| final(req)@.contains(t) ==> p_req(*f, t),
        forall|t: (usize, usize, usize)|
            final(req)@.contains(t) ==> loan_requires(*f, t.0, t.1, t.2),
        changed == (final(req)@.len() > old(req)@.len()),
        forall|i: int, j: int|
            from <= i < old(req)@.len() && 0 <= j < sub@.len()
                ==> req_sub_ok(final(req)@, sub@, i, j),
        forall|i: int, j: int|
            0 <= i < old(req)@.len() && sub_from <= j < sub@.len()
                ==> req_sub_ok(final(req)@, sub@, i, j),
        forall|i: int, e: int|
            from <= i < old(req)@.len() && 0 <= e < f.cfg_edge@.len()
                ==> req_edge_ok(*f, final(req)@, i, e),
{
    let len0 = req.len();
    let mut i: usize = 0;
    while i < len0
        invariant
            i <= len0,
            len0 == old(req)@.len(),
            extends(req@, old(req)@),
            req@.no_duplicates(),
            forall|t: (usize, usize, usize)| req@.contains(t) ==> p_req(*f, t),
            forall|t: (usize, usize, usize)| req@.contains(t) ==> loan_requires(*f, t.0, t.1, t.2),
            forall|i2: int, j2: int|
                from <= i2 < i && 0 <= j2 < sub@.len() ==> req_sub_ok(req@, sub@, i2, j2),
            forall|i2: int, j2: int|
                0 <= i2 < i && sub_from <= j2 < sub@.len() ==> req_sub_ok(req@, sub@, i2, j2),
        decreases len0 - i,
    {
        let r1 = req[i].0;
        let l = req[i].1;
        let pp = req[i].2;
        let jstart = if i >= from { 0 } else { sub_from };
        let mut j = jstart;
        while j < sub.len()
            invariant
                jstart <= j <= sub@.len(),
                extends(req@, old(req)@),
                req@.no_duplicates(),
                req@[i as int] == (r1, l, pp),
                forall|t: (usize, usize, usize)| req@.contains(t) ==> p_req(*f, t),
                forall|t: (usize, usize, usize)|
                    req@.contains(t) ==> loan_requires(*f, t.0, t.1, t.2),
                forall|i2: int, j2: int|
                    from <= i2 < i && 0 <= j2 < sub@.len() ==> req_sub_ok(req@, sub@, i2, j2),
                forall|i2: int, j2: int|
                    0 <= i2 < i && sub_from <= j2 < sub@.len() ==> req_sub_ok(req@, sub@, i2, j2),
                forall|j2: int| jstart <= j2 < j ==> req_sub_ok(req@, sub@, i as int, j2),
            decreases sub@.len() - j,
        {
            let c = sub[j].0;
            let d = sub[j].1;
            let qq = sub[j].2;
            if c == r1 && qq == pp {
                if !contains3(req, d, l, pp) {
                    proof {
                        assert(req@.contains((r1, l, pp)));
                        assert(sub@.contains((c, d, qq)));
                        lemma_requires_sub(*f, r1, d, l, pp);
                        assert(p_req(*f, (r1, l, pp)));
                        assert(p_sub(*f, (c, d, qq)));
                        assert(region_name(*f, d));
                        assert(p_req(*f, (d, l, pp)));
                        lemma_carry_req_sub(req@, req@.push((d, l, pp)), sub@, from as int, i as int, 0, sub@.len() as int);
                        lemma_carry_req_sub(req@, req@.push((d, l, pp)), sub@, 0, i as int, sub_from as int, sub@.len() as int);
                        lemma_carry_req_sub(req@, req@.push((d, l, pp)), sub@, i as int, i + 1, jstart as int, j as int);
                        lemma_push_no_dup(req@, (d, l, pp));
                        lemma_push_effect(req@, (d, l, pp));
                        lemma_push_contains_inv(req@, (d, l, pp));
                    }
                    req.push((d, l, pp));
                }
                assert(req@.contains((d, l, pp)));
            }
            proof {
                assert(req_sub_ok(req@, sub@, i as int, j as int));
            }
            j += 1;
        }
        proof {
            if i >= from {
                assert forall|j2: int| 0 <= j2 < sub@.len()
                    implies req_sub_ok(req@, sub@, i as int, j2) by {
                    assert(jstart <= j2 < j);
                }
            } else {
                assert forall|j2: int| sub_from <= j2 < sub@.len()
                    implies req_sub_ok(req@, sub@, i as int, j2) by {
                    assert(jstart <= j2 < j);
                }
            }
        }
        i += 1;
    }
    let mut i = from;
    while i < len0
        invariant
            from <= i <= len0,
            len0 == old(req)@.len(),
            extends(req@, old(req)@),
            req@.no_duplicates(),
            forall|t: (usize, usize, usize)| req@.contains(t) ==> p_req(*f, t),
            forall|t: (usize, usize, usize)| req@.contains(t) ==> loan_requires(*f, t.0, t.1, t.2),
            forall|i2: int, j2: int|
                from <= i2 < len0 && 0 <= j2 < sub@.len() ==> req_sub_ok(req@, sub@, i2, j2),
            forall|i2: int, j2: int|
                0 <= i2 < len0 && sub_from <= j2 < sub@.len() ==> req_sub_ok(req@, sub@, i2, j2),
            forall|i2: int, e2: int|
                from <= i2 < i && 0 <= e2 < f.cfg_edge@.len() ==> req_edge_ok(*f, req@, i2, e2),
        decreases len0 - i,
    {
        let r1 = req[i].0;
        let l = req[i].1;
        let pp = req[i].2;
        let mut e: usize = 0;
        while e < f.cfg_edge.len()
            invariant
                e <= f.cfg_edge@.len(),
                extends(req@, old(req)@),
                req@.no_duplicates(),
                req@[i as int] == (r1, l, pp),
                forall|t: (usize, usize, usize)| req@.contains(t) ==> p_req(*f, t),
                forall|t: (usize, usize, usize)|
                    req@.contains(t) ==> loan_requires(*f, t.0, t.1, t.2),
                forall|i2: int, j2: int|
                    from <= i2 < len0 && 0 <= j2 < sub@.len() ==> req_sub_ok(req@, sub@, i2, j2),
                forall|i2: int, j2: int|
                    0 <= i2 < len0 && sub_from <= j2 < sub@.len() ==> req_sub_ok(req@, sub@, i2, j2),
                forall|i2: int, e2: int|
                    from <= i2 < i && 0 <= e2 < f.cfg_edge@.len() ==> req_edge_ok(*f, req@, i2, e2),
                forall|e2: int| 0 <= e2 < e ==> req_edge_ok(*f, req@, i as int, e2),
            decreases f.cfg_edge@.len() - e,
        {
            if f.cfg_edge[e].0 == pp && !contains2(&f.killed, l, pp) {
                let tgt = f.cfg_edge[e].1;
                if contains2(rlv, r1, tgt) {
                    if !contains3(req, r1, l, tgt) {
                        proof {
                            assert(req@.contains((r1, l, pp)));
                            assert(p_req(*f, (r1, l, pp)));
                            assert(f.cfg_edge@[e as int] == (pp, tgt));
                            assert(f.cfg_edge@.contains((pp, tgt)));
                            lemma_requires_edge(*f, r1, l, pp, tgt);
                            assert(has_second2(f.cfg_edge@, tgt)) by {
                                assert(f.cfg_edge@[e as int].1 == tgt);
                            }
                            assert(p_req(*f, (r1, l, tgt)));
                            lemma_carry_req_sub(req@, req@.push((r1, l, tgt)), sub@, from as int, len0 as int, 0, sub@.len() as int);
                            lemma_carry_req_sub(req@, req@.push((r1, l, tgt)), sub@, 0, len0 as int, sub_from as int, sub@.len() as int);
                            lemma_carry_req_edge(*f, req@, req@.push((r1, l, tgt)), from as int, i as int, f.cfg_edge@.len() as int);
                            lemma_carry_req_edge(*f, req@, req@.push((r1, l, tgt)), i as int, i + 1, e as int);
                            lemma_push_no_dup(req@, (r1, l, tgt));
                            lemma_push_effect(req@, (r1, l, tgt));
                            lemma_push_contains_inv(req@, (r1, l, tgt));
                        }
                        req.push((r1, l, tgt));
                    }
                    assert(req@.contains((r1, l, tgt)));
                }
            }
            proof {
                assert(req_edge_ok(*f, req@, i as int, e as int));
            }
            e += 1;
        }
        i += 1;
    }
    req.len() > len0
}

// ------------------------------------------------------------------
// The joint subset/requirement fixpoint driver, and output collectors.

/// Compute the subset and requirement fixpoints, with the naive
/// (`inc == false`) or incremental (`inc == true`) schedule.
#[verifier::loop_isolation(false)]
pub fn subset_requires_fix(
    f: &AllFacts,
    rlv: &Vec<(usize, usize)>,
    inc: bool,
) -> (res: (Vec<(usize, usize, usize)>, Vec<(usize, usize, usize)>))
    requires
        forall|r: usize, p: usize| rlv@.contains((r, p)) <==> region_live(*f, r, p),
    ensures
        forall|r1: usize, r2: usize, p: usize|
            res.0@.contains((r1, r2, p)) <==> subsets(*f, r1, r2, p),
        forall|r: usize, l: usize, p: usize|
            res.1@.contains((r, l, p)) <==> loan_requires(*f, r, l, p),
{
    let mut rs: Vec<usize> = Vec::new();
    push_firsts3(&mut rs, &f.outlives);
    push_seconds3(&mut rs, &f.outlives);
    let mut pts_s: Vec<usize> = Vec::new();
    push_thirds3(&mut pts_s, &f.outlives);
    push_seconds2(&mut pts_s, &f.cfg_edge);
    let univ_s = triple_universe(&rs, &rs, &pts_s);

    let mut rr: Vec<usize> = Vec::new();
    push_firsts3(&mut rr, &f.borrow_region);
    push_firsts3(&mut rr, &f.outlives);
    push_seconds3(&mut rr, &f.outlives);
    let mut ls: Vec<usize> = Vec::new();
    push_seconds3(&mut ls, &f.borrow_region);
    let mut pts_r: Vec<usize> = Vec::new();
    push_thirds3(&mut pts_r, &f.borrow_region);
    push_seconds2(&mut pts_r, &f.cfg_edge);
    let univ_r = triple_universe(&rr, &ls, &pts_r);

    let mut sub: Vec<(usize, usize, usize)> = Vec::new();
    let mut k: usize = 0;
    while k < f.outlives.len()
        invariant
            k <= f.outlives@.len(),
            sub@.no_duplicates(),
            forall|t: (usize, usize, usize)|
                sub@.contains(t) ==> f.outlives@.contains(t) && t.0 != t.1,
            forall|k2: int|
                #![trigger f.outlives@[k2]]
                0 <= k2 < k && f.outlives@[k2].0 != f.outlives@[k2].1
                    ==> sub@.contains(f.outlives@[k2]),
        decreases f.outlives@.len() - k,
    {
        let t = f.outlives[k];
        if t.0 != t.1 {
            if !contains3(&sub, t.0, t.1, t.2) {
                let ghost pre = sub@;
                proof {
                    lemma_push_no_dup(sub@, t);
                    lemma_push_effect(sub@, t);
                    lemma_push_contains_inv(sub@, t);
                }
                sub.push(t);
                proof {
                    lemma_extends_contains(pre, sub@);
                    assert forall|k2: int|
                        0 <= k2 < k && f.outlives@[k2].0 != f.outlives@[k2].1
                        implies sub@.contains(f.outlives@[k2]) by {
                        assert(pre.contains(f.outlives@[k2]));
                    }
                }
            }
            assert(sub@.contains((t.0, t.1, t.2)));
            assert(sub@.contains(f.outlives@[k as int]));
        }
        k += 1;
    }
    proof {
        assert forall|t: (usize, usize, usize)| #[trigger] sub@.contains(t)
            implies subsets(*f, t.0, t.1, t.2) by {
            lemma_subset_base(*f, t.0, t.1, t.2);
        }
        assert forall|t: (usize, usize, usize)| #[trigger] sub@.contains(t)
            implies p_sub(*f, t) by {
            let k2 = choose|k2: int| 0 <= k2 < f.outlives@.len() && f.outlives@[k2] == t;
            assert(f.outlives@[k2].0 == t.0 && f.outlives@[k2].1 == t.1 && f.outlives@[k2].2 == t.2);
        }
        assert forall|a: usize, b: usize, q: usize|
            f.outlives@.contains((a, b, q)) && a != b implies sub@.contains((a, b, q)) by {
            let k2 = choose|k2: int| 0 <= k2 < f.outlives@.len() && f.outlives@[k2] == (a, b, q);
            assert(sub@.contains(f.outlives@[k2]));
        }
    }

    let mut req: Vec<(usize, usize, usize)> = Vec::new();
    let mut k: usize = 0;
    while k < f.borrow_region.len()
        invariant
            k <= f.borrow_region@.len(),
            req@.no_duplicates(),
            forall|t: (usize, usize, usize)| req@.contains(t) ==> f.borrow_region@.contains(t),
            forall|k2: int|
                #![trigger f.borrow_region@[k2]]
                0 <= k2 < k ==> req@.contains(f.borrow_region@[k2]),
        decreases f.borrow_region@.len() - k,
    {
        let t = f.borrow_region[k];
        if !contains3(&req, t.0, t.1, t.2) {
            let ghost pre = req@;
            proof {
                lemma_push_no_dup(req@, t);
                lemma_push_effect(req@, t);
                lemma_push_contains_inv(req@, t);
            }
            req.push(t);
            proof {
                lemma_extends_contains(pre, req@);
                assert forall|k2: int| 0 <= k2 < k
                    implies req@.contains(f.borrow_region@[k2]) by {
                    assert(pre.contains(f.borrow_region@[k2]));
                }
            }
        }
        assert(req@.contains((t.0, t.1, t.2)));
        assert(req@.contains(f.borrow_region@[k as int]));
        k += 1;
    }
    proof {
        assert forall|t: (usize, usize, usize)| #[trigger] req@.contains(t)
            implies loan_requires(*f, t.0, t.1, t.2) by {
            lemma_requires_base(*f, t.0, t.1, t.2);
        }
        assert forall|t: (usize, usize, usize)| #[trigger] req@.contains(t)
            implies p_req(*f, t) by {
            let k2 = choose|k2: int|
                0 <= k2 < f.borrow_region@.len() && f.borrow_region@[k2] == t;
            assert(f.borrow_region@[k2].0 == t.0 && f.borrow_region@[k2].1 == t.1
                && f.borrow_region@[k2].2 == t.2);
        }
        assert forall|t: (usize, usize, usize)| f.borrow_region@.contains(t)
            implies req@.contains(t) by {
            let k2 = choose|k2: int|
                0 <= k2 < f.borrow_region@.len() && f.borrow_region@[k2] == t;
            assert(req@.contains(f.borrow_region@[k2]));
        }
    }

    proof {
        assert forall|t: (usize, usize, usize)| sub@.contains(t)
            implies univ_s@.contains(t) by {
            assert(p_sub(*f, t));
            assert(rs@.contains(t.0));
            assert(rs@.contains(t.1));
            assert(pts_s@.contains(t.2));
        }
        lemma_distinct_in_universe(sub@, univ_s@);
        assert forall|t: (usize, usize, usize)| req@.contains(t)
            implies univ_r@.contains(t) by {
            assert(p_req(*f, t));
            assert(rr@.contains(t.0));
            assert(ls@.contains(t.1));
            assert(pts_r@.contains(t.2));
        }
        lemma_distinct_in_universe(req@, univ_r@);
    }
    let mut frm_s: usize = 0;
    let mut frm_r: usize = 0;
    let mut again = true;
    while again
        invariant
            frm_s <= sub@.len(),
            frm_r <= req@.len(),
            sub@.len() <= univ_s@.len(),
            req@.len() <= univ_r@.len(),
            sub@.no_duplicates(),
            req@.no_duplicates(),
            forall|t: (usize, usize, usize)| sub@.contains(t) ==> p_sub(*f, t),
            forall|t: (usize, usize, usize)| req@.contains(t) ==> p_req(*f, t),
            forall|t: (usize, usize, usize)| sub@.contains(t) ==> subsets(*f, t.0, t.1, t.2),
            forall|t: (usize, usize, usize)| req@.contains(t) ==> loan_requires(*f, t.0, t.1, t.2),
            forall|a: usize, b: usize, q: usize|
                f.outlives@.contains((a, b, q)) && a != b ==> sub@.contains((a, b, q)),
            forall|t: (usize, usize, usize)| f.borrow_region@.contains(t) ==> req@.contains(t),
            forall|i2: int, j2: int|
                0 <= i2 < frm_s && 0 <= j2 < frm_s
                    ==> sub_trans_ok(sub@, i2, j2) && sub_trans_ok(sub@, j2, i2),
            forall|i2: int, e2: int|
                0 <= i2 < frm_s && 0 <= e2 < f.cfg_edge@.len() ==> sub_edge_ok(*f, sub@, i2, e2),
            forall|i2: int, j2: int|
                0 <= i2 < frm_r && 0 <= j2 < frm_s ==> req_sub_ok(req@, sub@, i2, j2),
            forall|i2: int, e2: int|
                0 <= i2 < frm_r && 0 <= e2 < f.cfg_edge@.len() ==> req_edge_ok(*f, req@, i2, e2),
            !again ==> {
                &&& forall|i2: int, j2: int|
                    0 <= i2 < sub@.len() && 0 <= j2 < sub@.len()
                        ==> sub_trans_ok(sub@, i2, j2)
                &&& forall|i2: int, e2: int|
                    0 <= i2 < sub@.len() && 0 <= e2 < f.cfg_edge@.len()
                        ==> sub_edge_ok(*f, sub@, i2, e2)
                &&& forall|i2: int, j2: int|
                    0 <= i2 < req@.len() && 0 <= j2 < sub@.len()
                        ==> req_sub_ok(req@, sub@, i2, j2)
                &&& forall|i2: int, e2: int|
                    0 <= i2 < req@.len() && 0 <= e2 < f.cfg_edge@.len()
                        ==> req_edge_ok(*f, req@, i2, e2)
            },
        decreases
            (univ_s@.len() - sub@.len()) + (univ_r@.len() - req@.len())
                + (if again { 1int } else { 0int }),
    {
        let l0s = sub.len();
        let l0r = req.len();
        let ghost pre_s = sub@;
        let ghost pre_r = req@;
        let c1 = subset_round(f, rlv, &mut sub, frm_s);
        let c2 = requires_round(f, rlv, &sub, frm_s, &mut req, frm_r);
        proof {
            lemma_extends_contains(pre_s, sub@);
            lemma_extends_contains(pre_r, req@);
            lemma_carry_trans(pre_s, sub@, 0, frm_s as int, frm_s as int);
            lemma_carry_sub_edge(*f, pre_s, sub@, 0, frm_s as int, f.cfg_edge@.len() as int);
            assert forall|i2: int, j2: int|
                0 <= i2 < frm_r && 0 <= j2 < frm_s
                implies req_sub_ok(pre_r, sub@, i2, j2) by {
                assert(req_sub_ok(pre_r, pre_s, i2, j2));
                assert(sub@[j2] == pre_s[j2]);
            }
            lemma_carry_req_sub(pre_r, req@, sub@, 0, frm_r as int, 0, frm_s as int);
            lemma_carry_req_edge(*f, pre_r, req@, 0, frm_r as int, f.cfg_edge@.len() as int);
            assert forall|t: (usize, usize, usize)| sub@.contains(t)
                implies univ_s@.contains(t) by {
                assert(p_sub(*f, t));
                let ka = choose|ka: int|
                    0 <= ka < f.outlives@.len()
                        && (f.outlives@[ka].0 == t.0 || f.outlives@[ka].1 == t.0);
                let kb = choose|kb: int|
                    0 <= kb < f.outlives@.len()
                        && (f.outlives@[kb].0 == t.1 || f.outlives@[kb].1 == t.1);
                assert(rs@.contains(t.0));
                assert(rs@.contains(t.1));
                assert(pts_s@.contains(t.2));
            }
            lemma_distinct_in_universe(sub@, univ_s@);
            assert forall|t: (usize, usize, usize)| req@.contains(t)
                implies univ_r@.contains(t) by {
                assert(p_req(*f, t));
                assert(rr@.contains(t.0));
                assert(ls@.contains(t.1));
                assert(pts_r@.contains(t.2));
            }
            lemma_distinct_in_universe(req@, univ_r@);
        }
        frm_s = l0s;
        frm_r = l0r;
        again = c1 || c2;
    }
    proof {
        assert forall|a: usize, b: usize, c: usize, q: usize|
            #![trigger sub@.contains((a, b, q)), sub@.contains((b, c, q))]
            sub@.contains((a, b, q)) && sub@.contains((b, c, q)) && a != c
            implies sub@.contains((a, c, q)) by {
            let i2 = choose|i2: int| 0 <= i2 < sub@.len() && sub@[i2] == (a, b, q);
            let j2 = choose|j2: int| 0 <= j2 < sub@.len() && sub@[j2] == (b, c, q);
            assert(sub_trans_ok(sub@, i2, j2));
        }
        assert forall|a: usize, b: usize, q: usize, p2: usize|
            #![trigger sub@.contains((a, b, q)), f.cfg_edge@.contains((q, p2))]
            sub@.contains((a, b, q)) && f.cfg_edge@.contains((q, p2))
                && region_live(*f, a, p2) && region_live(*f, b, p2)
            implies sub@.contains((a, b, p2)) by {
            let i2 = choose|i2: int| 0 <= i2 < sub@.len() && sub@[i2] == (a, b, q);
            let e2 = choose|e2: int| 0 <= e2 < f.cfg_edge@.len() && f.cfg_edge@[e2] == (q, p2);
            assert(sub_edge_ok(*f, sub@, i2, e2));
        }
        assert forall|r1: usize, r2: usize, p: usize|
            sub@.contains((r1, r2, p)) == subsets(*f, r1, r2, p) by {
            if subsets(*f, r1, r2, p) {
                let n = choose|n: nat| subset_iter(*f, n).contains((r1, r2, p));
                lemma_subset_complete(*f, sub@, n, r1, r2, p);
            }
        }
        assert forall|a: usize, b: usize, l2: usize, q: usize|
            #![trigger req@.contains((a, l2, q)), subsets(*f, a, b, q)]
            req@.contains((a, l2, q)) && subsets(*f, a, b, q)
            implies req@.contains((b, l2, q)) by {
            let i2 = choose|i2: int| 0 <= i2 < req@.len() && req@[i2] == (a, l2, q);
            let j2 = choose|j2: int| 0 <= j2 < sub@.len() && sub@[j2] == (a, b, q);
            assert(req_sub_ok(req@, sub@, i2, j2));
        }
        assert forall|a: usize, l2: usize, q: usize, p2: usize|
            #![trigger req@.contains((a, l2, q)), f.cfg_edge@.contains((q, p2))]
            req@.contains((a, l2, q)) && !f.killed@.contains((l2, q))
                && f.cfg_edge@.contains((q, p2)) && region_live(*f, a, p2)
            implies req@.contains((a, l2, p2)) by {
            let i2 = choose|i2: int| 0 <= i2 < req@.len() && req@[i2] == (a, l2, q);
            let e2 = choose|e2: int| 0 <= e2 < f.cfg_edge@.len() && f.cfg_edge@[e2] == (q, p2);
            assert(req_edge_ok(*f, req@, i2, e2));
        }
        assert forall|r: usize, l: usize, p: usize|
            req@.contains((r, l, p)) == loan_requires(*f, r, l, p) by {
            if loan_requires(*f, r, l, p) {
                let n = choose|n: nat| requires_iter(*f, n).contains((r, l, p));
                lemma_requires_complete(*f, req@, n, r, l, p);
            }
        }
    }
    (sub, req)
}

/// Materialize the region-liveness relation as (region, point) pairs.
#[verifier::loop_isolation(false)]
pub fn region_live_rel(
    f: &AllFacts,
    var_rel: &Vec<(usize, usize)>,
    drop_rel: &Vec<(usize, usize)>,
) -> (rlv: Vec<(usize, usize)>)
    requires
        forall|v: usize, p: usize|
            var_rel@.contains((v, p)) <==> live(f.var_used@, f.var_defined@, f.cfg_edge@, v, p),
        forall|v: usize, p: usize|
            drop_rel@.contains((v, p))
                <==> live(f.var_drop_used@, f.var_defined@, f.cfg_edge@, v, p),
    ensures
        forall|r: usize, p: usize| rlv@.contains((r, p)) <==> region_live(*f, r, p),
{
    let mut rlv: Vec<(usize, usize)> = Vec::new();
    let mut k: usize = 0;
    while k < f.region_live_at.len()
        invariant
            k <= f.region_live_at@.len(),
            forall|t: (usize, usize)| rlv@.contains(t) ==> region_live(*f, t.0, t.1),
            forall|k2: int|
                #![trigger f.region_live_at@[k2]]
                0 <= k2 < k ==> rlv@.contains(f.region_live_at@[k2]),
        decreases f.region_live_at@.len() - k,
    {
        let t = f.region_live_at[k];
        let ghost pre = rlv@;
        proof {
            assert(f.region_live_at@.contains(t));
            lemma_push_effect(rlv@, t);
            lemma_push_contains_inv(rlv@, t);
        }
        rlv.push(t);
        proof {
            lemma_extends_contains(pre, rlv@);
            assert forall|k2: int|
                0 <= k2 < k implies rlv@.contains(f.region_live_at@[k2]) by {
                assert(pre.contains(f.region_live_at@[k2]));
            }
        }
        k += 1;
    }
    let mut e: usize = 0;
    while e < f.cfg_edge.len()
        invariant
            e <= f.cfg_edge@.len(),
            forall|t: (usize, usize)| rlv@.contains(t) ==> region_live(*f, t.0, t.1),
            forall|k2: int|
                #![trigger f.region_live_at@[k2]]
                0 <= k2 < f.region_live_at@.len() ==> rlv@.contains(f.region_live_at@[k2]),
            forall|e2: int, u2: int|
                #![trigger f.cfg_edge@[e2], f.universal_region@[u2]]
                0 <= e2 < e && 0 <= u2 < f.universal_region@.len()
                    ==> rlv@.contains((f.universal_region@[u2], f.cfg_edge@[e2].0))
                        && rlv@.contains((f.universal_region@[u2], f.cfg_edge@[e2].1)),
        decreases f.cfg_edge@.len() - e,
    {
        let src = f.cfg_edge[e].0;
        let dst = f.cfg_edge[e].1;
        let mut u: usize = 0;
        while u < f.universal_region.len()
            invariant
                u <= f.universal_region@.len(),
                forall|t: (usize, usize)| rlv@.contains(t) ==> region_live(*f, t.0, t.1),
                forall|k2: int|
                    #![trigger f.region_live_at@[k2]]
                    0 <= k2 < f.region_live_at@.len() ==> rlv@.contains(f.region_live_at@[k2]),
                forall|e2: int, u2: int|
                    #![trigger f.cfg_edge@[e2], f.universal_region@[u2]]
                    0 <= e2 < e && 0 <= u2 < f.universal_region@.len()
                        ==> rlv@.contains((f.universal_region@[u2], f.cfg_edge@[e2].0))
                            && rlv@.contains((f.universal_region@[u2], f.cfg_edge@[e2].1)),
                forall|u2: int|
                    0 <= u2 < u
                        ==> rlv@.contains((f.universal_region@[u2], f.cfg_edge@[e as int].0))
                            && rlv@.contains((f.universal_region@[u2], f.cfg_edge@[e as int].1)),
            decreases f.universal_region@.len() - u,
        {
            let ur = f.universal_region[u];
            let ghost pre = rlv@;
            proof {
                assert(f.universal_region@.contains(ur));
                assert(f.cfg_edge@.contains((src, dst)));
                assert(is_cfg_node(f.cfg_edge@, src));
                assert(is_cfg_node(f.cfg_edge@, dst));
                lemma_push_effect(rlv@, (ur, src));
                lemma_push_contains_inv(rlv@, (ur, src));
                lemma_push_effect(rlv@.push((ur, src)), (ur, dst));
                lemma_push_contains_inv(rlv@.push((ur, src)), (ur, dst));
            }
            rlv.push((ur, src));
            rlv.push((ur, dst));
            proof {
                lemma_extends_contains(pre, rlv@);
                assert forall|k2: int|
                    #![trigger f.region_live_at@[k2]]
                    0 <= k2 < f.region_live_at@.len()
                    implies rlv@.contains(f.region_live_at@[k2]) by {
                    assert(pre.contains(f.region_live_at@[k2]));
                }
                assert forall|e2: int, u2: int|
                    #![trigger f.cfg_edge@[e2], f.universal_region@[u2]]
                    0 <= e2 < e && 0 <= u2 < f.universal_region@.len()
                    implies rlv@.contains((f.universal_region@[u2], f.cfg_edge@[e2].0))
                        && rlv@.contains((f.universal_region@[u2], f.cfg_edge@[e2].1)) by {
                    assert(pre.contains((f.universal_region@[u2], f.cfg_edge@[e2].0)));
                    assert(pre.contains((f.universal_region@[u2], f.cfg_edge@[e2].1)));
                }
                assert forall|u2: int|
                    0 <= u2 < u
                    implies rlv@.contains((f.universal_region@[u2], f.cfg_edge@[e as int].0))
                        && rlv@.contains((f.universal_region@[u2], f.cfg_edge@[e as int].1)) by {
                    assert(pre.contains((f.universal_region@[u2], f.cfg_edge@[e as int].0)));
                    assert(pre.contains((f.universal_region@[u2], f.cfg_edge@[e as int].1)));
                }
                assert(rlv@.contains((f.universal_region@[u as int], f.cfg_edge@[e as int].0)));
                assert(rlv@.contains((f.universal_region@[u as int], f.cfg_edge@[e as int].1)));
            }
            u += 1;
        }
        e += 1;
    }
    let mut k: usize = 0;
    while k < var_rel.len()
        invariant
            k <= var_rel@.len(),
            forall|t: (usize, usize)| rlv@.contains(t) ==> region_live(*f, t.0, t.1),
            forall|k2: int|
                #![trigger f.region_live_at@[k2]]
                0 <= k2 < f.region_live_at@.len() ==> rlv@.contains(f.region_live_at@[k2]),
            forall|e2: int, u2: int|
                #![trigger f.cfg_edge@[e2], f.universal_region@[u2]]
                0 <= e2 < f.cfg_edge@.len() && 0 <= u2 < f.universal_region@.len()
                    ==> rlv@.contains((f.universal_region@[u2], f.cfg_edge@[e2].0))
                        && rlv@.contains((f.universal_region@[u2], f.cfg_edge@[e2].1)),
            forall|k2: int, m2: int|
                #![trigger var_rel@[k2], f.var_uses_region@[m2]]
                0 <= k2 < k && 0 <= m2 < f.var_uses_region@.len()
                    && f.var_uses_region@[m2].0 == var_rel@[k2].0
                    ==> rlv@.contains((f.var_uses_region@[m2].1, var_rel@[k2].1)),
        decreases var_rel@.len() - k,
    {
        let v = var_rel[k].0;
        let p = var_rel[k].1;
        let mut m: usize = 0;
        while m < f.var_uses_region.len()
            invariant
                m <= f.var_uses_region@.len(),
                var_rel@[k as int] == (v, p),
                forall|t: (usize, usize)| rlv@.contains(t) ==> region_live(*f, t.0, t.1),
                forall|k2: int|
                    #![trigger f.region_live_at@[k2]]
                    0 <= k2 < f.region_live_at@.len() ==> rlv@.contains(f.region_live_at@[k2]),
                forall|e2: int, u2: int|
                    #![trigger f.cfg_edge@[e2], f.universal_region@[u2]]
                    0 <= e2 < f.cfg_edge@.len() && 0 <= u2 < f.universal_region@.len()
                        ==> rlv@.contains((f.universal_region@[u2], f.cfg_edge@[e2].0))
                            && rlv@.contains((f.universal_region@[u2], f.cfg_edge@[e2].1)),
                forall|k2: int, m2: int|
                    #![trigger var_rel@[k2], f.var_uses_region@[m2]]
                    0 <= k2 < k && 0 <= m2 < f.var_uses_region@.len()
                        && f.var_uses_region@[m2].0 == var_rel@[k2].0
                        ==> rlv@.contains((f.var_uses_region@[m2].1, var_rel@[k2].1)),
                forall|m2: int|
                    #![trigger f.var_uses_region@[m2]]
                    0 <= m2 < m && f.var_uses_region@[m2].0 == v
                        ==> rlv@.contains((f.var_uses_region@[m2].1, p)),
            decreases f.var_uses_region@.len() - m,
        {
            if f.var_uses_region[m].0 == v {
                let r = f.var_uses_region[m].1;
                let ghost pre = rlv@;
                proof {
                    assert(var_rel@.contains((v, p)));
                    assert(live(f.var_used@, f.var_defined@, f.cfg_edge@, v, p));
                    assert(f.var_uses_region@.contains((v, r)));
                    assert(region_live(*f, r, p));
                    lemma_push_effect(rlv@, (r, p));
                    lemma_push_contains_inv(rlv@, (r, p));
                }
                rlv.push((r, p));
                proof {
                    lemma_extends_contains(pre, rlv@);
                    assert forall|k2: int|
                        0 <= k2 < f.region_live_at@.len()
                        implies rlv@.contains(f.region_live_at@[k2]) by {
                        assert(pre.contains(f.region_live_at@[k2]));
                    }
                    assert forall|e2: int, u2: int|
                        #![trigger f.cfg_edge@[e2], f.universal_region@[u2]]
                        0 <= e2 < f.cfg_edge@.len() && 0 <= u2 < f.universal_region@.len()
                        implies rlv@.contains((f.universal_region@[u2], f.cfg_edge@[e2].0))
                            && rlv@.contains((f.universal_region@[u2], f.cfg_edge@[e2].1)) by {
                        assert(pre.contains((f.universal_region@[u2], f.cfg_edge@[e2].0)));
                        assert(pre.contains((f.universal_region@[u2], f.cfg_edge@[e2].1)));
                    }
                    assert forall|k2: int, m2: int|
                        #![trigger var_rel@[k2], f.var_uses_region@[m2]]
                        0 <= k2 < k && 0 <= m2 < f.var_uses_region@.len()
                            && f.var_uses_region@[m2].0 == var_rel@[k2].0
                        implies rlv@.contains((f.var_uses_region@[m2].1, var_rel@[k2].1)) by {
                        assert(pre.contains((f.var_uses_region@[m2].1, var_rel@[k2].1)));
                    }
                    assert forall|m2: int|
                        #![trigger f.var_uses_region@[m2]]
                        0 <= m2 < m && f.var_uses_region@[m2].0 == v
                        implies rlv@.contains((f.var_uses_region@[m2].1, p)) by {
                        assert(pre.contains((f.var_uses_region@[m2].1, p)));
                    }
                }
            }
            m += 1;
        }
        k += 1;
    }
    let mut k: usize = 0;
    while k < drop_rel.len()
        invariant
            k <= drop_rel@.len(),
            forall|t: (usize, usize)| rlv@.contains(t) ==> region_live(*f, t.0, t.1),
            forall|k2: int|
                #![trigger f.region_live_at@[k2]]
                0 <= k2 < f.region_live_at@.len() ==> rlv@.contains(f.region_live_at@[k2]),
            forall|e2: int, u2: int|
                #![trigger f.cfg_edge@[e2], f.universal_region@[u2]]
                0 <= e2 < f.cfg_edge@.len() && 0 <= u2 < f.universal_region@.len()
                    ==> rlv@.contains((f.universal_region@[u2], f.cfg_edge@[e2].0))
                        && rlv@.contains((f.universal_region@[u2], f.cfg_edge@[e2].1)),
            forall|k2: int, m2: int|
                #![trigger var_rel@[k2], f.var_uses_region@[m2]]
                0 <= k2 < var_rel@.len() && 0 <= m2 < f.var_uses_region@.len()
                    && f.var_uses_region@[m2].0 == var_rel@[k2].0
                    ==> rlv@.contains((f.var_uses_region@[m2].1, var_rel@[k2].1)),
            forall|k2: int, m2: int|
                #![trigger drop_rel@[k2], f.var_drops_region@[m2]]
                0 <= k2 < k && 0 <= m2 < f.var_drops_region@.len()
                    && f.var_drops_region@[m2].0 == drop_rel@[k2].0
                    ==> rlv@.contains((f.var_drops_region@[m2].1, drop_rel@[k2].1)),
        decreases drop_rel@.len() - k,
    {
        let v = drop_rel[k].0;
        let p = drop_rel[k].1;
        let mut m: usize = 0;
        while m < f.var_drops_region.len()
            invariant
                m <= f.var_drops_region@.len(),
                drop_rel@[k as int] == (v, p),
                forall|t: (usize, usize)| rlv@.contains(t) ==> region_live(*f, t.0, t.1),
                forall|k2: int|
                    #![trigger f.region_live_at@[k2]]
                    0 <= k2 < f.region_live_at@.len() ==> rlv@.contains(f.region_live_at@[k2]),
                forall|e2: int, u2: int|
                    #![trigger f.cfg_edge@[e2], f.universal_region@[u2]]
                    0 <= e2 < f.cfg_edge@.len() && 0 <= u2 < f.universal_region@.len()
                        ==> rlv@.contains((f.universal_region@[u2], f.cfg_edge@[e2].0))
                            && rlv@.contains((f.universal_region@[u2], f.cfg_edge@[e2].1)),
                forall|k2: int, m2: int|
                    #![trigger var_rel@[k2], f.var_uses_region@[m2]]
                    0 <= k2 < var_rel@.len() && 0 <= m2 < f.var_uses_region@.len()
                        && f.var_uses_region@[m2].0 == var_rel@[k2].0
                        ==> rlv@.contains((f.var_uses_region@[m2].1, var_rel@[k2].1)),
                forall|k2: int, m2: int|
                    #![trigger drop_rel@[k2], f.var_drops_region@[m2]]
                    0 <= k2 < k && 0 <= m2 < f.var_drops_region@.len()
                        && f.var_drops_region@[m2].0 == drop_rel@[k2].0
                        ==> rlv@.contains((f.var_drops_region@[m2].1, drop_rel@[k2].1)),
                forall|m2: int|
                    #![trigger f.var_drops_region@[m2]]
                    0 <= m2 < m && f.var_drops_region@[m2].0 == v
                        ==> rlv@.contains((f.var_drops_region@[m2].1, p)),
            decreases f.var_drops_region@.len() - m,
        {
            if f.var_drops_region[m].0 == v {
                let r = f.var_drops_region[m].1;
                let ghost pre = rlv@;
                proof {
                    assert(drop_rel@.contains((v, p)));
                    assert(live(f.var_drop_used@, f.var_defined@, f.cfg_edge@, v, p));
                    assert(f.var_drops_region@.contains((v, r)));
                    assert(region_live(*f, r, p));
                    lemma_push_effect(rlv@, (r, p));
                    lemma_push_contains_inv(rlv@, (r, p));
                }
                rlv.push((r, p));
                proof {
                    lemma_extends_contains(pre, rlv@);
                    assert forall|k2: int|
                        0 <= k2 < f.region_live_at@.len()
                        implies rlv@.contains(f.region_live_at@[k2]) by {
                        assert(pre.contains(f.region_live_at@[k2]));
                    }
                    assert forall|e2: int, u2: int|
                        #![trigger f.cfg_edge@[e2], f.universal_region@[u2]]
                        0 <= e2 < f.cfg_edge@.len() && 0 <= u2 < f.universal_region@.len()
                        implies rlv@.contains((f.universal_region@[u2], f.cfg_edge@[e2].0))
                            && rlv@.contains((f.universal_region@[u2], f.cfg_edge@[e2].1)) by {
                        assert(pre.contains((f.universal_region@[u2], f.cfg_edge@[e2].0)));
                        assert(pre.contains((f.universal_region@[u2], f.cfg_edge@[e2].1)));
                    }
                    assert forall|k2: int, m2: int|
                        #![trigger var_rel@[k2], f.var_uses_region@[m2]]
                        0 <= k2 < var_rel@.len() && 0 <= m2 < f.var_uses_region@.len()
                            && f.var_uses_region@[m2].0 == var_rel@[k2].0
                        implies rlv@.contains((f.var_uses_region@[m2].1, var_rel@[k2].1)) by {
                        assert(pre.contains((f.var_uses_region@[m2].1, var_rel@[k2].1)));
                    }
                    assert forall|k2: int, m2: int|
                        #![trigger drop_rel@[k2], f.var_drops_region@[m2]]
                        0 <= k2 < k && 0 <= m2 < f.var_drops_region@.len()
                            && f.var_drops_region@[m2].0 == drop_rel@[k2].0
                        implies rlv@.contains((f.var_drops_region@[m2].1, drop_rel@[k2].1)) by {
                        assert(pre.contains((f.var_drops_region@[m2].1, drop_rel@[k2].1)));
                    }
                    assert forall|m2: int|
                        #![trigger f.var_drops_region@[m2]]
                        0 <= m2 < m && f.var_drops_region@[m2].0 == v
                        implies rlv@.contains((f.var_drops_region@[m2].1, p)) by {
                        assert(pre.contains((f.var_drops_region@[m2].1, p)));
                    }
                }
            }
            m += 1;
        }
        k += 1;
    }
    proof {
        assert forall|r: usize, p: usize|
            region_live(*f, r, p) implies rlv@.contains((r, p)) by {
            if f.region_live_at@.contains((r, p)) {
                let k2 = choose|k2: int|
                    0 <= k2 < f.region_live_at@.len() && f.region_live_at@[k2] == (r, p);
                assert(rlv@.contains(f.region_live_at@[k2]));
            } else if f.universal_region@.contains(r) && is_cfg_node(f.cfg_edge@, p) {
                let u2 = choose|u2: int|
                    0 <= u2 < f.universal_region@.len() && f.universal_region@[u2] == r;
                let q = choose|q: usize|
                    f.cfg_edge@.contains((p, q)) || f.cfg_edge@.contains((q, p));
                if f.cfg_edge@.contains((p, q)) {
                    let e2 = choose|e2: int|
                        0 <= e2 < f.cfg_edge@.len() && f.cfg_edge@[e2] == (p, q);
                    assert(rlv@.contains((f.universal_region@[u2], f.cfg_edge@[e2].0)));
                } else {
                    let e2 = choose|e2: int|
                        0 <= e2 < f.cfg_edge@.len() && f.cfg_edge@[e2] == (q, p);
                    assert(rlv@.contains((f.universal_region@[u2], f.cfg_edge@[e2].1)));
                }
            } else if exists|v: usize| f.var_uses_region@.contains((v, r))
                && live(f.var_used@, f.var_defined@, f.cfg_edge@, v, p) {
                let v = choose|v: usize| f.var_uses_region@.contains((v, r))
                    && live(f.var_used@, f.var_defined@, f.cfg_edge@, v, p);
                assert(var_rel@.contains((v, p)));
                let k2 = choose|k2: int| 0 <= k2 < var_rel@.len() && var_rel@[k2] == (v, p);
                let m2 = choose|m2: int|
                    0 <= m2 < f.var_uses_region@.len() && f.var_uses_region@[m2] == (v, r);
                assert(rlv@.contains((f.var_uses_region@[m2].1, var_rel@[k2].1)));
            } else {
                let v = choose|v: usize| f.var_drops_region@.contains((v, r))
                    && live(f.var_drop_used@, f.var_defined@, f.cfg_edge@, v, p);
                assert(drop_rel@.contains((v, p)));
                let k2 = choose|k2: int| 0 <= k2 < drop_rel@.len() && drop_rel@[k2] == (v, p);
                let m2 = choose|m2: int|
                    0 <= m2 < f.var_drops_region@.len() && f.var_drops_region@[m2] == (v, r);
                assert(rlv@.contains((f.var_drops_region@[m2].1, drop_rel@[k2].1)));
            }
        }
    }
    rlv
}

/// Collect the live loans per point: (point, loan) pairs.
#[verifier::loop_isolation(false)]
pub fn borrow_live_rel(
    f: &AllFacts,
    req: &Vec<(usize, usize, usize)>,
    rlv: &Vec<(usize, usize)>,
) -> (blv: Vec<(usize, usize)>)
    requires
        forall|r: usize, l: usize, p: usize|
            req@.contains((r, l, p)) <==> loan_requires(*f, r, l, p),
        forall|r: usize, p: usize| rlv@.contains((r, p)) <==> region_live(*f, r, p),
    ensures
        forall|p: usize, l: usize| blv@.contains((p, l)) <==> loan_live(*f, l, p),
{
    let mut blv: Vec<(usize, usize)> = Vec::new();
    let mut k: usize = 0;
    while k < req.len()
        invariant
            k <= req@.len(),
            forall|t: (usize, usize)| blv@.contains(t) ==> loan_live(*f, t.1, t.0),
            forall|k2: int|
                #![trigger req@[k2]]
                0 <= k2 < k && rlv@.contains((req@[k2].0, req@[k2].2))
                    ==> blv@.contains((req@[k2].2, req@[k2].1)),
        decreases req@.len() - k,
    {
        let r = req[k].0;
        let l = req[k].1;
        let p = req[k].2;
        if contains2(rlv, r, p) {
            if !contains2(&blv, p, l) {
                let ghost pre = blv@;
                proof {
                    assert(req@.contains((r, l, p)));
                    assert(loan_requires(*f, r, l, p));
                    assert(region_live(*f, r, p));
                    assert(loan_live(*f, l, p));
                    lemma_push_effect(blv@, (p, l));
                    lemma_push_contains_inv(blv@, (p, l));
                }
                blv.push((p, l));
                proof {
                    lemma_extends_contains(pre, blv@);
                    assert forall|k2: int|
                        #![trigger req@[k2]]
                        0 <= k2 < k && rlv@.contains((req@[k2].0, req@[k2].2))
                        implies blv@.contains((req@[k2].2, req@[k2].1)) by {
                        assert(pre.contains((req@[k2].2, req@[k2].1)));
                    }
                }
            }
            assert(blv@.contains((p, l)));
        }
        k += 1;
    }
    proof {
        assert forall|p: usize, l: usize| loan_live(*f, l, p) implies blv@.contains((p, l)) by {
            let r = choose|r: usize| loan_requires(*f, r, l, p) && region_live(*f, r, p);
            assert(req@.contains((r, l, p)));
            let k2 = choose|k2: int| 0 <= k2 < req@.len() && req@[k2] == (r, l, p);
            assert(rlv@.contains((req@[k2].0, req@[k2].2)));
        }
    }
    blv
}

/// Filter live loans down to conflicts: (point, loan) pairs with an invalidation.
#[verifier::loop_isolation(false)]
pub fn errors_rel(f: &AllFacts, blv: &Vec<(usize, usize)>) -> (errs: Vec<(usize, usize)>)
    requires
        forall|p: usize, l: usize| blv@.contains((p, l)) <==> loan_live(*f, l, p),
    ensures
        forall|p: usize, l: usize| errs@.contains((p, l)) <==> is_error(*f, p, l),
{
    let mut errs: Vec<(usize, usize)> = Vec::new();
    let mut k: usize = 0;
    while k < blv.len()
        invariant
            k <= blv@.len(),
            forall|t: (usize, usize)| errs@.contains(t) ==> is_error(*f, t.0, t.1),
            forall|k2: int|
                #![trigger blv@[k2]]
                0 <= k2 < k && f.invalidates@.contains(blv@[k2]) ==> errs@.contains(blv@[k2]),
        decreases blv@.len() - k,
    {
        let p = blv[k].0;
        let l = blv[k].1;
        if contains2(&f.invalidates, p, l) {
            if !contains2(&errs, p, l) {
                let ghost pre = errs@;
                proof {
                    assert(blv@.contains((p, l)));
                    assert(f.invalidates@.contains((p, l)));
                    assert(is_error(*f, p, l));
                    lemma_push_effect(errs@, (p, l));
                    lemma_push_contains_inv(errs@, (p, l));
                }
                errs.push((p, l));
                proof {
                    lemma_extends_contains(pre, errs@);
                    assert forall|k2: int|
                        #![trigger blv@[k2]]
                        0 <= k2 < k && f.invalidates@.contains(blv@[k2])
                        implies errs@.contains(blv@[k2]) by {
                        assert(pre.contains(blv@[k2]));
                    }
                }
            }
            assert(errs@.contains((p, l)));
        }
        k += 1;
    }
    proof {
        assert forall|p: usize, l: usize| is_error(*f, p, l) implies errs@.contains((p, l)) by {
            assert(blv@.contains((p, l)));
            let k2 = choose|k2: int| 0 <= k2 < blv@.len() && blv@[k2] == (p, l);
            assert(errs@.contains(blv@[k2]));
        }
    }
    errs
}

} // verus!
