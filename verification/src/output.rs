//! The engine's public face: one `compute` entry point over four
//! interchangeable evaluation strategies, each returning an `Output` whose
//! relations are pinned to the declarative semantics in `sem`.

use vstd::prelude::*;
use crate::facts::AllFacts;
use crate::sem::{
    live, region_live, subsets, loan_live, is_error, is_error_li, lemma_error_to_li,
};
use crate::engine::{
    live_fixpoint, region_live_rel, subset_requires_fix, borrow_live_rel, errors_rel,
    push_firsts3, push_seconds3, pair_universe, region_name, req_region, has_second3,
};
use crate::insensitive::{subset_li_fix, req_li_fix, errors_li_rel};

verus! {

/// Which evaluation strategy `compute` runs.
#[derive(Clone, Copy, Debug)]
pub enum Algorithm {
    /// Full relational fixpoint, re-deriving every rule each round.
    Naive,
    /// Incremental evaluation: only newly derived tuples fire rules each round.
    DatafrogOpt,
    /// Point ordering erased; a fast conservative overapproximation.
    LocationInsensitive,
    /// Location-insensitive prefilter, then the incremental strategy.
    Hybrid,
}

/// The derived relations of one analysis run. Tuple orientations:
/// `errors` and `borrow_live_at` hold (point, loan); `subset` holds
/// (region, region, point); `region_live_at` holds (region, point);
/// `var_live_at` and `var_drop_live_at` hold (variable, point).
#[derive(Debug)]
pub struct Output {
    pub errors: Vec<(usize, usize)>,
    pub subset: Vec<(usize, usize, usize)>,
    pub region_live_at: Vec<(usize, usize)>,
    pub borrow_live_at: Vec<(usize, usize)>,
    pub var_live_at: Vec<(usize, usize)>,
    pub var_drop_live_at: Vec<(usize, usize)>,
}

/// The error relation equals the flow-sensitive conflict semantics.
pub open spec fn errors_exact(f: AllFacts, o: Output) -> bool {
    forall|p: usize, l: usize| o.errors@.contains((p, l)) <==> is_error(f, p, l)
}

/// The error relation equals the location-insensitive conflict semantics.
pub open spec fn errors_exact_li(f: AllFacts, o: Output) -> bool {
    forall|p: usize, l: usize| o.errors@.contains((p, l)) <==> is_error_li(f, p, l)
}

/// The live-loan relation equals the loan-liveness semantics.
pub open spec fn borrow_live_exact(f: AllFacts, o: Output) -> bool {
    forall|p: usize, l: usize| o.borrow_live_at@.contains((p, l)) <==> loan_live(f, l, p)
}

/// The liveness relations equal their semantics.
pub open spec fn liveness_exact(f: AllFacts, o: Output) -> bool {
    &&& forall|r: usize, p: usize| o.region_live_at@.contains((r, p)) <==> region_live(f, r, p)
    &&& forall|v: usize, p: usize|
        o.var_live_at@.contains((v, p)) <==> live(f.var_used@, f.var_defined@, f.cfg_edge@, v, p)
    &&& forall|v: usize, p: usize|
        o.var_drop_live_at@.contains((v, p))
            <==> live(f.var_drop_used@, f.var_defined@, f.cfg_edge@, v, p)
}

/// The intermediate relations equal their semantics.
pub open spec fn intermediates_exact(f: AllFacts, o: Output) -> bool {
    &&& forall|r1: usize, r2: usize, p: usize|
        o.subset@.contains((r1, r2, p)) <==> subsets(f, r1, r2, p)
    &&& liveness_exact(f, o)
}

fn empty_output() -> (o: Output)
    ensures
        o.errors@.len() == 0,
        o.subset@.len() == 0,
        o.region_live_at@.len() == 0,
        o.borrow_live_at@.len() == 0,
        o.var_live_at@.len() == 0,
        o.var_drop_live_at@.len() == 0,
{
    Output {
        errors: Vec::new(),
        subset: Vec::new(),
        region_live_at: Vec::new(),
        borrow_live_at: Vec::new(),
        var_live_at: Vec::new(),
        var_drop_live_at: Vec::new(),
    }
}

/// The flow-sensitive pipeline shared by the naive and incremental strategies.
fn compute_sensitive(f: &AllFacts, inc: bool, dump_enabled: bool) -> (o: Output)
    ensures
        errors_exact(*f, o),
        borrow_live_exact(*f, o),
        dump_enabled ==> intermediates_exact(*f, o),
{
    let var_rel = live_fixpoint(&f.var_used, &f.var_defined, &f.cfg_edge, inc);
    let drop_rel = live_fixpoint(&f.var_drop_used, &f.var_defined, &f.cfg_edge, inc);
    let rlv = region_live_rel(f, &var_rel, &drop_rel);
    let (sub, req) = subset_requires_fix(f, &rlv, inc);
    let blv = borrow_live_rel(f, &req, &rlv);
    let errs = errors_rel(f, &blv);
    if dump_enabled {
        Output {
            errors: errs,
            subset: sub,
            region_live_at: rlv,
            borrow_live_at: blv,
            var_live_at: var_rel,
            var_drop_live_at: drop_rel,
        }
    } else {
        Output {
            errors: errs,
            subset: Vec::new(),
            region_live_at: Vec::new(),
            borrow_live_at: blv,
            var_live_at: Vec::new(),
            var_drop_live_at: Vec::new(),
        }
    }
}

/// The location-insensitive pipeline: global closures, then conflicts.
#[verifier::loop_isolation(false)]
fn compute_insensitive(f: &AllFacts, dump_enabled: bool) -> (o: Output)
    ensures
        errors_exact_li(*f, o),
        dump_enabled ==> liveness_exact(*f, o),
{
    let var_rel = live_fixpoint(&f.var_used, &f.var_defined, &f.cfg_edge, true);
    let drop_rel = live_fixpoint(&f.var_drop_used, &f.var_defined, &f.cfg_edge, true);
    let rlv = region_live_rel(f, &var_rel, &drop_rel);

    let mut rnames: Vec<usize> = Vec::new();
    push_firsts3(&mut rnames, &f.outlives);
    push_seconds3(&mut rnames, &f.outlives);
    let empty_base: Vec<(usize, usize)> = Vec::new();
    let univ_sub = pair_universe(&empty_base, &rnames, &rnames);
    proof {
        assert forall|a: usize, b: usize|
            region_name(*f, a) && region_name(*f, b) implies univ_sub@.contains((a, b)) by {
            assert(rnames@.contains(a));
            assert(rnames@.contains(b));
        }
    }
    let subli = subset_li_fix(f, &univ_sub);

    let mut reqregions: Vec<usize> = Vec::new();
    push_firsts3(&mut reqregions, &f.borrow_region);
    push_firsts3(&mut reqregions, &f.outlives);
    push_seconds3(&mut reqregions, &f.outlives);
    let mut loans: Vec<usize> = Vec::new();
    push_seconds3(&mut loans, &f.borrow_region);
    let univ_req = pair_universe(&empty_base, &reqregions, &loans);
    proof {
        assert forall|a: usize, b: usize|
            req_region(*f, a) && has_second3(f.borrow_region@, b)
            implies univ_req@.contains((a, b)) by {
            assert(reqregions@.contains(a));
            assert(loans@.contains(b));
        }
    }
    let reqli = req_li_fix(f, &subli, &univ_req);
    let errs = errors_li_rel(f, &reqli, &rlv);
    if dump_enabled {
        Output {
            errors: errs,
            subset: Vec::new(),
            region_live_at: rlv,
            borrow_live_at: Vec::new(),
            var_live_at: var_rel,
            var_drop_live_at: drop_rel,
        }
    } else {
        let mut o = empty_output();
        o.errors = errs;
        o
    }
}

impl Output {
    /// Run the analysis on `all_facts` with the chosen strategy.
    ///
    /// Every flow-sensitive strategy (including `Hybrid`) reports exactly the
    /// conflicts of the flow-sensitive semantics; `LocationInsensitive`
    /// reports exactly the conflicts of the point-erased semantics. With
    /// `dump_enabled` the intermediate relations are recorded as well.
    pub fn compute(all_facts: &AllFacts, algorithm: Algorithm, dump_enabled: bool) -> (o: Output)
        ensures
            !(algorithm is LocationInsensitive) ==> errors_exact(*all_facts, o),
            algorithm is LocationInsensitive ==> errors_exact_li(*all_facts, o),
            algorithm is LocationInsensitive && dump_enabled ==> liveness_exact(*all_facts, o),
            (algorithm is Naive || algorithm is DatafrogOpt) ==> borrow_live_exact(*all_facts, o),
            (algorithm is Naive || algorithm is DatafrogOpt) && dump_enabled
                ==> intermediates_exact(*all_facts, o),
    {
        match algorithm {
            Algorithm::Naive => compute_sensitive(all_facts, false, dump_enabled),
            Algorithm::DatafrogOpt => compute_sensitive(all_facts, true, dump_enabled),
            Algorithm::LocationInsensitive => compute_insensitive(all_facts, dump_enabled),
            Algorithm::Hybrid => {
                let pre = compute_insensitive(all_facts, false);
                if pre.errors.len() == 0 {
                    proof {
                        assert forall|p: usize, l: usize|
                            !is_error(*all_facts, p, l) by {
                            if is_error(*all_facts, p, l) {
                                lemma_error_to_li(*all_facts, p, l);
                                assert(pre.errors@.contains((p, l)));
                            }
                        }
                    }
                    empty_output()
                } else {
                    compute_sensitive(all_facts, true, dump_enabled)
                }
            },
        }
    }
}

} // verus!
