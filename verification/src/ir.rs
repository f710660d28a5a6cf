//! The structural description of an analyzed program: named blocks of
//! statements, each statement carrying the effects observed at its two
//! control-flow points.

use vstd::prelude::*;

verus! {

/// A whole program: universal region declarations, blocks, and the optional
/// variable-to-region projection tables.
#[derive(Debug)]
pub struct Input {
    pub universal_regions: Vec<String>,
    pub blocks: Vec<Block>,
    pub var_uses_region: Vec<(String, String)>,
    pub var_drops_region: Vec<(String, String)>,
}

impl Input {
    /// Assemble a program description; absent projection tables become empty.
    pub fn new(
        universal_regions: Vec<String>,
        var_uses_region: Option<Vec<(String, String)>>,
        var_drops_region: Option<Vec<(String, String)>>,
        blocks: Vec<Block>,
    ) -> (r: Input)
        ensures
            r.universal_regions == universal_regions,
            r.blocks == blocks,
            var_uses_region matches Some(v) ==> r.var_uses_region == v,
            var_uses_region is None ==> r.var_uses_region@.len() == 0,
            var_drops_region matches Some(v) ==> r.var_drops_region == v,
            var_drops_region is None ==> r.var_drops_region@.len() == 0,
    {
        Input {
            universal_regions,
            var_uses_region: match var_uses_region {
                Some(v) => v,
                None => Vec::new(),
            },
            var_drops_region: match var_drops_region {
                Some(v) => v,
                None => Vec::new(),
            },
            blocks,
        }
    }
}

/// A named basic block: ordered statements and declared successor blocks.
#[derive(Debug)]
pub struct Block {
    pub name: String,
    pub statements: Vec<Statement>,
    pub goto: Vec<String>,
}

/// One statement; it owns two control-flow points, Start then Mid.
#[derive(Debug)]
pub struct Statement {
    /// Effects destined to be emitted at the statement's Start point.
    pub effects_start: Vec<Effect>,
    /// Effects destined to be emitted at the statement's Mid point.
    pub effects: Vec<Effect>,
}

/// An observed effect: a use of regions, or an individual fact.
#[derive(Clone, Debug, PartialEq)]
pub enum Effect {
    Use { regions: Vec<String> },
    Fact(Fact),
}

/// An individual fact attached to a point.
#[derive(Clone, Debug, PartialEq)]
pub enum Fact {
    Outlives { a: String, b: String },
    BorrowRegionAt { region: String, loan: String },
    Invalidates { loan: String },
    Kill { loan: String },
    RegionLiveAt { region: String },
    DefineVariable { variable: String },
    UseVariable { variable: String },
    DropUseVariable { variable: String },
}

/// The effects that are promoted from a statement's Mid point to its Start
/// point: liveness entering the mid-point must already hold at the start,
/// since no control-flow boundary separates them.
pub open spec fn is_region_live_effect(e: Effect) -> bool {
    match e {
        Effect::Fact(Fact::RegionLiveAt { .. }) => true,
        _ => false,
    }
}

impl Statement {
    /// Build a statement from its mid-point effects; the start-point effects
    /// are exactly the `region_live_at` effects among them, in order.
    pub fn new(effects: Vec<Effect>) -> (r: Statement)
        ensures
            r.effects == effects,
            r.effects_start@ == effects@.filter(|e: Effect| is_region_live_effect(e)),
    {
        let mut effects_start: Vec<Effect> = Vec::new();
        let mut k: usize = 0;
        while k < effects.len()
            invariant
                k <= effects@.len(),
                effects_start@ == effects@.take(k as int).filter(
                    |e: Effect| is_region_live_effect(e),
                ),
            decreases effects@.len() - k,
        {
            proof {
                reveal(Seq::filter);
                assert(effects@.take(k + 1).drop_last() =~= effects@.take(k as int));
                assert(effects@.take(k + 1).last() == effects@[k as int]);
            }
            match &effects[k] {
                Effect::Fact(Fact::RegionLiveAt { region }) => {
                    let copy = Effect::Fact(Fact::RegionLiveAt { region: region.clone() });
                    proof {
                        assert(copy == effects@[k as int]);
                        assert(is_region_live_effect(effects@[k as int]));
                    }
                    effects_start.push(copy);
                },
                _ => {
                    proof {
                        assert(!is_region_live_effect(effects@[k as int]));
                    }
                },
            }
            k += 1;
        }
        proof {
            assert(effects@.take(effects@.len() as int) =~= effects@);
        }
        Statement { effects_start, effects }
    }

    /// Build a statement with explicitly chosen start-point effects.
    pub fn with_start_effects(effects_start: Vec<Effect>, effects: Vec<Effect>) -> (r: Statement)
        ensures
            r.effects_start == effects_start,
            r.effects == effects,
    {
        Statement { effects_start, effects }
    }
}

} // verus!
