//! The location-insensitive evaluation: point ordering is erased, the subset
//! and requirement closures are computed once globally, and conflicts are
//! reported wherever a potentially live loan is invalidated.

use vstd::prelude::*;
use crate::facts::AllFacts;
use crate::sem::{
    extends, lemma_extends_contains, lemma_push_effect, lemma_push_contains_inv,
    lemma_push_no_dup, lemma_distinct_in_universe,
    region_live,
    subsets_li, subset_li_iter, lemma_subset_li_base, lemma_subsets_li_trans,
    lemma_subset_li_complete,
    loan_requires_li, req_li_iter, lemma_req_li_base, lemma_req_li_sub, lemma_req_li_complete,
    loan_live_li, is_error_li,
};
use crate::engine::{
    contains2, has_second3, region_name, req_region,
};

verus! {

/// Every point-erased subset pair draws its regions from `outlives`.
pub open spec fn p_subli(f: AllFacts, t: (usize, usize)) -> bool {
    region_name(f, t.0) && region_name(f, t.1)
}

/// Every point-erased requirement pair draws its components from the inputs.
pub open spec fn p_reqli(f: AllFacts, t: (usize, usize)) -> bool {
    req_region(f, t.0) && has_second3(f.borrow_region@, t.1)
}

/// The point-erased transitivity rule is satisfied for pairs `i` and `j`.
pub open spec fn li_trans_ok(s: Seq<(usize, usize)>, i: int, j: int) -> bool {
    (s[i].1 == s[j].0 && s[i].0 != s[j].1) ==> s.contains((s[i].0, s[j].1))
}

/// The point-erased requirement rule is satisfied for requirement `i` and pair `j`.
pub open spec fn li_req_ok(req: Seq<(usize, usize)>, sub: Seq<(usize, usize)>, i: int, j: int) -> bool {
    (sub[j].0 == req[i].0) ==> req.contains((sub[j].1, req[i].1))
}

proof fn lemma_carry_li_trans(s1: Seq<(usize, usize)>, s2: Seq<(usize, usize)>, hi: int)
    requires
        extends(s2, s1),
        hi <= s1.len(),
    ensures
        forall|i: int, j: int|
            0 <= i < hi && 0 <= j < hi && li_trans_ok(s1, i, j) ==> li_trans_ok(s2, i, j),
{
    lemma_extends_contains(s1, s2);
    assert forall|i: int, j: int|
        0 <= i < hi && 0 <= j < hi && li_trans_ok(s1, i, j)
        implies li_trans_ok(s2, i, j) by {
        assert(s2[i] == s1[i] && s2[j] == s1[j]);
    }
}

proof fn lemma_carry_li_req(
    s1: Seq<(usize, usize)>,
    s2: Seq<(usize, usize)>,
    sub: Seq<(usize, usize)>,
    ihi: int,
    jhi: int,
)
    requires
        extends(s2, s1),
        ihi <= s1.len(),
        jhi <= sub.len(),
    ensures
        forall|i: int, j: int|
            0 <= i < ihi && 0 <= j < jhi && li_req_ok(s1, sub, i, j) ==> li_req_ok(s2, sub, i, j),
{
    lemma_extends_contains(s1, s2);
    assert forall|i: int, j: int|
        0 <= i < ihi && 0 <= j < jhi && li_req_ok(s1, sub, i, j)
        implies li_req_ok(s2, sub, i, j) by {
        assert(s2[i] == s1[i]);
    }
}

/// Compute the global subset closure as a set of (region, region) pairs.
#[verifier::loop_isolation(false)]
pub fn subset_li_fix(f: &AllFacts, univ: &Vec<(usize, usize)>) -> (sub: Vec<(usize, usize)>)
    requires
        forall|a: usize, b: usize|
            region_name(*f, a) && region_name(*f, b) ==> univ@.contains((a, b)),
    ensures
        forall|r1: usize, r2: usize| sub@.contains((r1, r2)) <==> subsets_li(*f, r1, r2),
        forall|t: (usize, usize)| #[trigger] sub@.contains(t) ==> p_subli(*f, t),
{
    let mut sub: Vec<(usize, usize)> = Vec::new();
    let mut k: usize = 0;
    while k < f.outlives.len()
        invariant
            k <= f.outlives@.len(),
            sub@.no_duplicates(),
            forall|t: (usize, usize)|
                #![trigger sub@.contains(t)]
                sub@.contains(t) ==> subsets_li(*f, t.0, t.1) && p_subli(*f, t),
            forall|k2: int|
                #![trigger f.outlives@[k2]]
                0 <= k2 < k && f.outlives@[k2].0 != f.outlives@[k2].1
                    ==> sub@.contains((f.outlives@[k2].0, f.outlives@[k2].1)),
        decreases f.outlives@.len() - k,
    {
        let t = f.outlives[k];
        if t.0 != t.1 {
            if !contains2(&sub, t.0, t.1) {
                let ghost pre = sub@;
                proof {
                    assert(f.outlives@.contains((t.0, t.1, t.2)));
                    lemma_subset_li_base(*f, t.0, t.1, t.2);
                    assert(f.outlives@[k as int].0 == t.0 && f.outlives@[k as int].1 == t.1);
                    lemma_push_no_dup(sub@, (t.0, t.1));
                    lemma_push_effect(sub@, (t.0, t.1));
                    lemma_push_contains_inv(sub@, (t.0, t.1));
                }
                sub.push((t.0, t.1));
                proof {
                    lemma_extends_contains(pre, sub@);
                    assert forall|k2: int|
                        #![trigger f.outlives@[k2]]
                        0 <= k2 < k && f.outlives@[k2].0 != f.outlives@[k2].1
                        implies sub@.contains((f.outlives@[k2].0, f.outlives@[k2].1)) by {
                        assert(pre.contains((f.outlives@[k2].0, f.outlives@[k2].1)));
                    }
                }
            }
            assert(sub@.contains((t.0, t.1)));
            assert(sub@.contains((f.outlives@[k as int].0, f.outlives@[k as int].1)));
        }
        k += 1;
    }
    proof {
        assert forall|t: (usize, usize)| sub@.contains(t) implies univ@.contains(t) by {
            assert(p_subli(*f, t));
        }
        lemma_distinct_in_universe(sub@, univ@);
    }
    let mut frm: usize = 0;
    let mut again = true;
    while again
        invariant
            frm <= sub@.len(),
            sub@.len() <= univ@.len(),
            sub@.no_duplicates(),
            forall|t: (usize, usize)|
                #![trigger sub@.contains(t)]
                sub@.contains(t) ==> subsets_li(*f, t.0, t.1) && p_subli(*f, t),
            forall|a: usize, b: usize, q: usize|
                #![trigger f.outlives@.contains((a, b, q))]
                f.outlives@.contains((a, b, q)) && a != b ==> sub@.contains((a, b)),
            forall|i2: int, j2: int|
                0 <= i2 < frm && 0 <= j2 < frm ==> li_trans_ok(sub@, i2, j2),
            !again ==> forall|i2: int, j2: int|
                0 <= i2 < sub@.len() && 0 <= j2 < sub@.len() ==> li_trans_ok(sub@, i2, j2),
        decreases univ@.len() - sub@.len() + (if again { 1int } else { 0int }),
    {
        let l0 = sub.len();
        let ghost pre0 = sub@;
        let mut i = frm;
        while i < l0
            invariant
                frm <= i <= l0,
                l0 <= sub@.len(),
                extends(sub@, pre0),
                pre0.len() == l0,
                sub@.no_duplicates(),
                sub@.len() <= univ@.len(),
                forall|t: (usize, usize)|
                    #![trigger sub@.contains(t)]
                    sub@.contains(t) ==> subsets_li(*f, t.0, t.1) && p_subli(*f, t),
                forall|i2: int, j2: int|
                    frm <= i2 < i && 0 <= j2 < l0
                        ==> li_trans_ok(sub@, i2, j2) && li_trans_ok(sub@, j2, i2),
            decreases l0 - i,
        {
            let a = sub[i].0;
            let b = sub[i].1;
            let mut j: usize = 0;
            while j < l0
                invariant
                    j <= l0,
                    l0 <= sub@.len(),
                    extends(sub@, pre0),
                    pre0.len() == l0,
                    sub@.no_duplicates(),
                    sub@.len() <= univ@.len(),
                    sub@[i as int] == (a, b),
                    forall|t: (usize, usize)|
                        #![trigger sub@.contains(t)]
                        sub@.contains(t) ==> subsets_li(*f, t.0, t.1) && p_subli(*f, t),
                    forall|i2: int, j2: int|
                        frm <= i2 < i && 0 <= j2 < l0
                            ==> li_trans_ok(sub@, i2, j2) && li_trans_ok(sub@, j2, i2),
                    forall|j2: int|
                        0 <= j2 < j ==> li_trans_ok(sub@, i as int, j2) && li_trans_ok(sub@, j2, i as int),
                decreases l0 - j,
            {
                let c = sub[j].0;
                let d = sub[j].1;
                if b == c && a != d {
                    if !contains2(&sub, a, d) {
                        proof {
                            assert(sub@.contains((a, b)) && sub@.contains((c, d)));
                            lemma_subsets_li_trans(*f, a, b, d);
                            lemma_carry_li_trans(sub@, sub@.push((a, d)), l0 as int);
                            lemma_push_no_dup(sub@, (a, d));
                            lemma_push_effect(sub@, (a, d));
                            lemma_push_contains_inv(sub@, (a, d));
                        }
                        sub.push((a, d));
                        proof {
                            assert forall|t: (usize, usize)| sub@.contains(t)
                                implies univ@.contains(t) by {
                                assert(p_subli(*f, t));
                            }
                            lemma_distinct_in_universe(sub@, univ@);
                        }
                    }
                    assert(sub@.contains((a, d)));
                }
                if d == a && c != b {
                    if !contains2(&sub, c, b) {
                        proof {
                            assert(sub@.contains((a, b)) && sub@.contains((c, d)));
                            lemma_subsets_li_trans(*f, c, d, b);
                            lemma_carry_li_trans(sub@, sub@.push((c, b)), l0 as int);
                            lemma_push_no_dup(sub@, (c, b));
                            lemma_push_effect(sub@, (c, b));
                            lemma_push_contains_inv(sub@, (c, b));
                        }
                        sub.push((c, b));
                        proof {
                            assert forall|t: (usize, usize)| sub@.contains(t)
                                implies univ@.contains(t) by {
                                assert(p_subli(*f, t));
                            }
                            lemma_distinct_in_universe(sub@, univ@);
                        }
                    }
                    assert(sub@.contains((c, b)));
                }
                proof {
                    assert(li_trans_ok(sub@, i as int, j as int));
                    assert(li_trans_ok(sub@, j as int, i as int));
                }
                j += 1;
            }
            i += 1;
        }
        proof {
            lemma_carry_li_trans(pre0, sub@, frm as int);
            lemma_extends_contains(pre0, sub@);
            assert forall|a: usize, b: usize, q: usize|
                #![trigger f.outlives@.contains((a, b, q))]
                f.outlives@.contains((a, b, q)) && a != b implies sub@.contains((a, b)) by {
                assert(pre0.contains((a, b)));
            }
        }
        let changed = sub.len() > l0;
        frm = l0;
        again = changed;
    }
    proof {
        assert forall|a: usize, b: usize, c: usize|
            #![trigger sub@.contains((a, b)), sub@.contains((b, c))]
            sub@.contains((a, b)) && sub@.contains((b, c)) && a != c
            implies sub@.contains((a, c)) by {
            let i2 = choose|i2: int| 0 <= i2 < sub@.len() && sub@[i2] == (a, b);
            let j2 = choose|j2: int| 0 <= j2 < sub@.len() && sub@[j2] == (b, c);
            assert(li_trans_ok(sub@, i2, j2));
        }
        assert forall|r1: usize, r2: usize|
            sub@.contains((r1, r2)) == subsets_li(*f, r1, r2) by {
            if subsets_li(*f, r1, r2) {
                let n = choose|n: nat| subset_li_iter(*f, n).contains((r1, r2));
                lemma_subset_li_complete(*f, sub@, n, r1, r2);
            }
        }
    }
    sub
}

/// Compute the global requirement closure as (region, loan) pairs.
#[verifier::loop_isolation(false)]
pub fn req_li_fix(
    f: &AllFacts,
    subli: &Vec<(usize, usize)>,
    univ: &Vec<(usize, usize)>,
) -> (req: Vec<(usize, usize)>)
    requires
        forall|r1: usize, r2: usize| subli@.contains((r1, r2)) <==> subsets_li(*f, r1, r2),
        forall|t: (usize, usize)| #[trigger] subli@.contains(t) ==> p_subli(*f, t),
        forall|a: usize, b: usize|
            req_region(*f, a) && has_second3(f.borrow_region@, b) ==> univ@.contains((a, b)),
    ensures
        forall|r: usize, l: usize| req@.contains((r, l)) <==> loan_requires_li(*f, r, l),
{
    let mut req: Vec<(usize, usize)> = Vec::new();
    let mut k: usize = 0;
    while k < f.borrow_region.len()
        invariant
            k <= f.borrow_region@.len(),
            req@.no_duplicates(),
            forall|t: (usize, usize)|
                #![trigger req@.contains(t)]
                req@.contains(t) ==> loan_requires_li(*f, t.0, t.1) && p_reqli(*f, t),
            forall|k2: int|
                #![trigger f.borrow_region@[k2]]
                0 <= k2 < k
                    ==> req@.contains((f.borrow_region@[k2].0, f.borrow_region@[k2].1)),
        decreases f.borrow_region@.len() - k,
    {
        let t = f.borrow_region[k];
        if !contains2(&req, t.0, t.1) {
            let ghost pre = req@;
            proof {
                assert(f.borrow_region@.contains((t.0, t.1, t.2)));
                lemma_req_li_base(*f, t.0, t.1, t.2);
                assert(f.borrow_region@[k as int].0 == t.0 && f.borrow_region@[k as int].1 == t.1);
                lemma_push_no_dup(req@, (t.0, t.1));
                lemma_push_effect(req@, (t.0, t.1));
                lemma_push_contains_inv(req@, (t.0, t.1));
            }
            req.push((t.0, t.1));
            proof {
                lemma_extends_contains(pre, req@);
                assert forall|k2: int|
                    #![trigger f.borrow_region@[k2]]
                    0 <= k2 < k
                    implies req@.contains((f.borrow_region@[k2].0, f.borrow_region@[k2].1)) by {
                    assert(pre.contains((f.borrow_region@[k2].0, f.borrow_region@[k2].1)));
                }
            }
        }
        assert(req@.contains((t.0, t.1)));
        assert(req@.contains((f.borrow_region@[k as int].0, f.borrow_region@[k as int].1)));
        k += 1;
    }
    proof {
        assert forall|t: (usize, usize)| req@.contains(t) implies univ@.contains(t) by {
            assert(p_reqli(*f, t));
        }
        lemma_distinct_in_universe(req@, univ@);
    }
    let mut frm: usize = 0;
    let mut again = true;
    while again
        invariant
            frm <= req@.len(),
            req@.len() <= univ@.len(),
            req@.no_duplicates(),
            forall|t: (usize, usize)|
                #![trigger req@.contains(t)]
                req@.contains(t) ==> loan_requires_li(*f, t.0, t.1) && p_reqli(*f, t),
            forall|k2: int|
                #![trigger f.borrow_region@[k2]]
                0 <= k2 < f.borrow_region@.len()
                    ==> req@.contains((f.borrow_region@[k2].0, f.borrow_region@[k2].1)),
            forall|i2: int, j2: int|
                0 <= i2 < frm && 0 <= j2 < subli@.len() ==> li_req_ok(req@, subli@, i2, j2),
            !again ==> forall|i2: int, j2: int|
                0 <= i2 < req@.len() && 0 <= j2 < subli@.len() ==> li_req_ok(req@, subli@, i2, j2),
        decreases univ@.len() - req@.len() + (if again { 1int } else { 0int }),
    {
        let l0 = req.len();
        let ghost pre0 = req@;
        let mut i = frm;
        while i < l0
            invariant
                frm <= i <= l0,
                l0 <= req@.len(),
                extends(req@, pre0),
                pre0.len() == l0,
                req@.no_duplicates(),
                req@.len() <= univ@.len(),
                forall|t: (usize, usize)|
                    #![trigger req@.contains(t)]
                    req@.contains(t) ==> loan_requires_li(*f, t.0, t.1) && p_reqli(*f, t),
                forall|i2: int, j2: int|
                    frm <= i2 < i && 0 <= j2 < subli@.len() ==> li_req_ok(req@, subli@, i2, j2),
            decreases l0 - i,
        {
            let r1 = req[i].0;
            let l = req[i].1;
            let mut j: usize = 0;
            while j < subli.len()
                invariant
                    j <= subli@.len(),
                    l0 <= req@.len(),
                    extends(req@, pre0),
                    pre0.len() == l0,
                    req@.no_duplicates(),
                    req@.len() <= univ@.len(),
                    req@[i as int] == (r1, l),
                    forall|t: (usize, usize)|
                        #![trigger req@.contains(t)]
                        req@.contains(t) ==> loan_requires_li(*f, t.0, t.1) && p_reqli(*f, t),
                    forall|i2: int, j2: int|
                        frm <= i2 < i && 0 <= j2 < subli@.len() ==> li_req_ok(req@, subli@, i2, j2),
                    forall|j2: int| 0 <= j2 < j ==> li_req_ok(req@, subli@, i as int, j2),
                decreases subli@.len() - j,
            {
                let c = subli[j].0;
                let d = subli[j].1;
                if c == r1 {
                    if !contains2(&req, d, l) {
                        proof {
                            assert(req@.contains((r1, l)));
                            assert(subli@.contains((c, d)));
                            assert(subli@.contains((r1, d)));
                            assert(subsets_li(*f, r1, d));
                            lemma_req_li_sub(*f, r1, d, l);
                            assert(p_subli(*f, (c, d)));
                            lemma_carry_li_req(req@, req@.push((d, l)), subli@, l0 as int, subli@.len() as int);
                            lemma_push_no_dup(req@, (d, l));
                            lemma_push_effect(req@, (d, l));
                            lemma_push_contains_inv(req@, (d, l));
                        }
                        req.push((d, l));
                        proof {
                            assert forall|t: (usize, usize)| req@.contains(t)
                                implies univ@.contains(t) by {
                                assert(p_reqli(*f, t));
                            }
                            lemma_distinct_in_universe(req@, univ@);
                        }
                    }
                    assert(req@.contains((d, l)));
                }
                proof {
                    assert(li_req_ok(req@, subli@, i as int, j as int));
                }
                j += 1;
            }
            i += 1;
        }
        proof {
            lemma_carry_li_req(pre0, req@, subli@, frm as int, subli@.len() as int);
            lemma_extends_contains(pre0, req@);
            assert forall|k2: int|
                #![trigger f.borrow_region@[k2]]
                0 <= k2 < f.borrow_region@.len()
                implies req@.contains((f.borrow_region@[k2].0, f.borrow_region@[k2].1)) by {
                assert(pre0.contains((f.borrow_region@[k2].0, f.borrow_region@[k2].1)));
            }
        }
        let changed = req.len() > l0;
        frm = l0;
        again = changed;
    }
    proof {
        assert forall|t: (usize, usize, usize)|
            #![trigger f.borrow_region@.contains(t)]
            f.borrow_region@.contains(t) implies req@.contains((t.0, t.1)) by {
            let k2 = choose|k2: int|
                0 <= k2 < f.borrow_region@.len() && f.borrow_region@[k2] == t;
            assert(req@.contains((f.borrow_region@[k2].0, f.borrow_region@[k2].1)));
        }
        assert forall|a: usize, b: usize, l2: usize|
            #![trigger req@.contains((a, l2)), subsets_li(*f, a, b)]
            req@.contains((a, l2)) && subsets_li(*f, a, b)
            implies req@.contains((b, l2)) by {
            let i2 = choose|i2: int| 0 <= i2 < req@.len() && req@[i2] == (a, l2);
            let j2 = choose|j2: int| 0 <= j2 < subli@.len() && subli@[j2] == (a, b);
            assert(li_req_ok(req@, subli@, i2, j2));
        }
        assert forall|r: usize, l: usize|
            req@.contains((r, l)) == loan_requires_li(*f, r, l) by {
            if loan_requires_li(*f, r, l) {
                let n = choose|n: nat| req_li_iter(*f, n).contains((r, l));
                assert forall|a: usize, l2: usize, q: usize|
                    #![trigger f.borrow_region@.contains((a, l2, q))]
                    f.borrow_region@.contains((a, l2, q)) implies req@.contains((a, l2)) by {
                    assert(req@.contains(((a, l2, q).0, (a, l2, q).1)));
                }
                lemma_req_li_complete(*f, req@, n, r, l);
            }
        }
    }
    req
}

/// Collect the location-insensitive conflicts: a potentially live loan at an
/// invalidation point.
#[verifier::loop_isolation(false)]
pub fn errors_li_rel(
    f: &AllFacts,
    reqli: &Vec<(usize, usize)>,
    rlv: &Vec<(usize, usize)>,
) -> (errs: Vec<(usize, usize)>)
    requires
        forall|r: usize, l: usize| reqli@.contains((r, l)) <==> loan_requires_li(*f, r, l),
        forall|r: usize, p: usize| rlv@.contains((r, p)) <==> region_live(*f, r, p),
    ensures
        forall|p: usize, l: usize| errs@.contains((p, l)) <==> is_error_li(*f, p, l),
{
    let mut errs: Vec<(usize, usize)> = Vec::new();
    let mut k: usize = 0;
    while k < reqli.len()
        invariant
            k <= reqli@.len(),
            forall|t: (usize, usize)|
                #![trigger errs@.contains(t)]
                errs@.contains(t) ==> is_error_li(*f, t.0, t.1),
            forall|k2: int, m2: int|
                #![trigger reqli@[k2], rlv@[m2]]
                0 <= k2 < k && 0 <= m2 < rlv@.len()
                    && rlv@[m2].0 == reqli@[k2].0
                    && f.invalidates@.contains((rlv@[m2].1, reqli@[k2].1))
                    ==> errs@.contains((rlv@[m2].1, reqli@[k2].1)),
        decreases reqli@.len() - k,
    {
        let r = reqli[k].0;
        let l = reqli[k].1;
        let mut m: usize = 0;
        while m < rlv.len()
            invariant
                m <= rlv@.len(),
                reqli@[k as int] == (r, l),
                forall|t: (usize, usize)|
                    #![trigger errs@.contains(t)]
                    errs@.contains(t) ==> is_error_li(*f, t.0, t.1),
                forall|k2: int, m2: int|
                    #![trigger reqli@[k2], rlv@[m2]]
                    0 <= k2 < k && 0 <= m2 < rlv@.len()
                        && rlv@[m2].0 == reqli@[k2].0
                        && f.invalidates@.contains((rlv@[m2].1, reqli@[k2].1))
                        ==> errs@.contains((rlv@[m2].1, reqli@[k2].1)),
                forall|m2: int|
                    #![trigger rlv@[m2]]
                    0 <= m2 < m && rlv@[m2].0 == r
                        && f.invalidates@.contains((rlv@[m2].1, l))
                        ==> errs@.contains((rlv@[m2].1, l)),
            decreases rlv@.len() - m,
        {
            if rlv[m].0 == r {
                let p = rlv[m].1;
                if contains2(&f.invalidates, p, l) {
                    if !contains2(&errs, p, l) {
                        let ghost pre = errs@;
                        proof {
                            assert(reqli@.contains((r, l)));
                            assert(rlv@.contains((r, p)));
                            assert(loan_requires_li(*f, r, l));
                            assert(region_live(*f, r, p));
                            assert(loan_live_li(*f, l, p));
                            lemma_push_effect(errs@, (p, l));
                            lemma_push_contains_inv(errs@, (p, l));
                        }
                        errs.push((p, l));
                        proof {
                            lemma_extends_contains(pre, errs@);
                            assert forall|k2: int, m2: int|
                                #![trigger reqli@[k2], rlv@[m2]]
                                0 <= k2 < k && 0 <= m2 < rlv@.len()
                                    && rlv@[m2].0 == reqli@[k2].0
                                    && f.invalidates@.contains((rlv@[m2].1, reqli@[k2].1))
                                implies errs@.contains((rlv@[m2].1, reqli@[k2].1)) by {
                                assert(pre.contains((rlv@[m2].1, reqli@[k2].1)));
                            }
                            assert forall|m2: int|
                                #![trigger rlv@[m2]]
                                0 <= m2 < m && rlv@[m2].0 == r
                                    && f.invalidates@.contains((rlv@[m2].1, l))
                                implies errs@.contains((rlv@[m2].1, l)) by {
                                assert(pre.contains((rlv@[m2].1, l)));
                            }
                        }
                    }
                    assert(errs@.contains((p, l)));
                }
            }
            m += 1;
        }
        k += 1;
    }
    proof {
        assert forall|p: usize, l: usize| is_error_li(*f, p, l) implies errs@.contains((p, l)) by {
            let r = choose|r: usize| loan_requires_li(*f, r, l) && region_live(*f, r, p);
            assert(reqli@.contains((r, l)));
            assert(rlv@.contains((r, p)));
            let k2 = choose|k2: int| 0 <= k2 < reqli@.len() && reqli@[k2] == (r, l);
            let m2 = choose|m2: int| 0 <= m2 < rlv@.len() && rlv@[m2] == (r, p);
            assert(errs@.contains((rlv@[m2].1, reqli@[k2].1)));
        }
    }
    errs
}

} // verus!
