use vstd::prelude::*;

verus! {

/// The flat relational input of the analysis engine.
///
/// Regions, loans, variables and points are dense interned integers.
/// Tuple orientations:
/// - `universal_region`: region
/// - `cfg_edge`: (point, successor point)
/// - `outlives`: (region a, region b, point) — `'a: 'b` asserted at the point
/// - `borrow_region`: (region, loan, point) — the loan is created at the point
/// - `invalidates`: (point, loan)
/// - `killed`: (loan, point)
/// - `region_live_at`: (region, point)
/// - `var_used`, `var_defined`, `var_drop_used`: (variable, point)
/// - `var_uses_region`, `var_drops_region`: (variable, region)
#[derive(Debug)]
pub struct AllFacts {
    pub universal_region: Vec<usize>,
    pub cfg_edge: Vec<(usize, usize)>,
    pub outlives: Vec<(usize, usize, usize)>,
    pub borrow_region: Vec<(usize, usize, usize)>,
    pub invalidates: Vec<(usize, usize)>,
    pub killed: Vec<(usize, usize)>,
    pub region_live_at: Vec<(usize, usize)>,
    pub var_used: Vec<(usize, usize)>,
    pub var_defined: Vec<(usize, usize)>,
    pub var_drop_used: Vec<(usize, usize)>,
    pub var_uses_region: Vec<(usize, usize)>,
    pub var_drops_region: Vec<(usize, usize)>,
}

impl AllFacts {
    /// An empty fact table: every relation empty.
    pub fn new() -> (r: AllFacts)
        ensures
            r.universal_region@.len() == 0,
            r.cfg_edge@.len() == 0,
            r.outlives@.len() == 0,
            r.borrow_region@.len() == 0,
            r.invalidates@.len() == 0,
            r.killed@.len() == 0,
            r.region_live_at@.len() == 0,
            r.var_used@.len() == 0,
            r.var_defined@.len() == 0,
            r.var_drop_used@.len() == 0,
            r.var_uses_region@.len() == 0,
            r.var_drops_region@.len() == 0,
    {
        AllFacts {
            universal_region: Vec::new(),
            cfg_edge: Vec::new(),
            outlives: Vec::new(),
            borrow_region: Vec::new(),
            invalidates: Vec::new(),
            killed: Vec::new(),
            region_live_at: Vec::new(),
            var_used: Vec::new(),
            var_defined: Vec::new(),
            var_drop_used: Vec::new(),
            var_uses_region: Vec::new(),
            var_drops_region: Vec::new(),
        }
    }
}

} // verus!
