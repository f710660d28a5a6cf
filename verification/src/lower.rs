//! Program lowering: walk the blocks of a structural program description in
//! declaration order, allocate two sequential control-flow points (Start,
//! Mid) to every statement, wire the intra-statement, intra-block and
//! successor edges, and attach each effect's fact to its point. Names are
//! interned to dense ids on first sight.

use vstd::prelude::*;
use crate::facts::AllFacts;
use crate::intern::InternerTables;
use crate::ir::{Input, Block, Effect, Fact};
use crate::sem::{lemma_push_effect, lemma_extends_contains};

verus! {

/// A lowering failure, carrying a human-readable reason.
#[derive(Debug)]
pub struct ParseError {
    pub message: String,
}

/// Some declared block with this name has at least one statement (so it owns
/// a first Start point that an edge can target).
pub open spec fn block_has_statements(blocks: Seq<Block>, name: Seq<char>) -> bool {
    exists|i: int|
        0 <= i < blocks.len() && blocks[i].name@ == name && blocks[i].statements@.len() > 0
}

/// Some successor name refers to no block, or to a block without a point.
pub open spec fn has_dangling_goto(blocks: Seq<Block>) -> bool {
    exists|bi: int, g: int|
        0 <= bi < blocks.len() && 0 <= g < blocks[bi].goto@.len()
            && !block_has_statements(blocks, blocks[bi].goto@[g]@)
}

/// The number of statements in the blocks before block `bi`.
pub open spec fn stmts_before(blocks: Seq<Block>, bi: int) -> int
    decreases bi,
{
    if bi <= 0 {
        0
    } else {
        stmts_before(blocks, bi - 1) + blocks[bi - 1].statements@.len()
    }
}

/// The Start point of statement `sj` of block `bi`; its Mid point follows it.
pub open spec fn start_point(blocks: Seq<Block>, bi: int, sj: int) -> int {
    2 * (stmts_before(blocks, bi) + sj)
}

/// The program has more statements than points can number on this machine.
pub open spec fn too_large(blocks: Seq<Block>) -> bool {
    stmts_before(blocks, blocks.len() as int) > usize::MAX as int / 2
}

proof fn lemma_stmts_before_mono(blocks: Seq<Block>, m: int, n: int)
    requires
        0 <= m <= n <= blocks.len(),
    ensures
        stmts_before(blocks, m) <= stmts_before(blocks, n),
    decreases n - m,
{
    if m < n {
        lemma_stmts_before_mono(blocks, m, n - 1);
    }
}

/// Which fact relations of `f2` may extend those of `f1`; every relation
/// whose flag is false is unchanged.
pub open spec fn fact_frame(
    f1: AllFacts,
    f2: AllFacts,
    outl: bool,
    bor: bool,
    inv: bool,
    kil: bool,
    rla: bool,
    vdef: bool,
    vuse: bool,
    vdrop: bool,
) -> bool {
    &&& f2.cfg_edge == f1.cfg_edge
    &&& f2.universal_region == f1.universal_region
    &&& f2.var_uses_region == f1.var_uses_region
    &&& f2.var_drops_region == f1.var_drops_region
    &&& (!outl ==> f2.outlives == f1.outlives)
    &&& (!bor ==> f2.borrow_region == f1.borrow_region)
    &&& (!inv ==> f2.invalidates == f1.invalidates)
    &&& (!kil ==> f2.killed == f1.killed)
    &&& (!rla ==> f2.region_live_at == f1.region_live_at)
    &&& (!vdef ==> f2.var_defined == f1.var_defined)
    &&& (!vuse ==> f2.var_used == f1.var_used)
    &&& (!vdrop ==> f2.var_drop_used == f1.var_drop_used)
}

/// Name `x` is interned as id `id` in `itn`.
pub open spec fn named(itn: crate::intern::Interner, id: usize, x: Seq<char>) -> bool {
    id < itn.names@.len() && itn.names@[id as int]@ == x
}

/// The region called `name` is asserted live at `start` in `f`.
pub open spec fn region_use_emitted(
    itn: crate::intern::Interner,
    f: AllFacts,
    name: Seq<char>,
    start: usize,
) -> bool {
    exists|rr: usize|
        #![trigger named(itn, rr, name)]
        named(itn, rr, name) && f.region_live_at@.contains((rr, start))
}

/// Attach one effect's facts: each individual fact appends exactly one tuple
/// at `at`, its names interned to ids; a `Use` asserts each named region live
/// at the statement's Start point. Nothing else changes.
fn emit_effect(
    e: &Effect,
    facts: &mut AllFacts,
    tables: &mut InternerTables,
    at: usize,
    start: usize,
)
    requires
        old(tables).wf(),
    ensures
        final(tables).wf(),
        e matches Effect::Fact(Fact::Outlives { a, b }) ==> (
            fact_frame(*old(facts), *final(facts), true, false, false, false, false, false, false, false)
            && exists|ra: usize, rb: usize|
                named(final(tables).regions, ra, a@) && named(final(tables).regions, rb, b@)
                && final(facts).outlives@ == old(facts).outlives@.push((ra, rb, at))),
        e matches Effect::Fact(Fact::BorrowRegionAt { region, loan }) ==> (
            fact_frame(*old(facts), *final(facts), false, true, false, false, false, false, false, false)
            && exists|rr: usize, ll: usize|
                named(final(tables).regions, rr, region@) && named(final(tables).loans, ll, loan@)
                && final(facts).borrow_region@ == old(facts).borrow_region@.push((rr, ll, at))),
        e matches Effect::Fact(Fact::Invalidates { loan }) ==> (
            fact_frame(*old(facts), *final(facts), false, false, true, false, false, false, false, false)
            && exists|ll: usize| named(final(tables).loans, ll, loan@)
                && final(facts).invalidates@ == old(facts).invalidates@.push((at, ll))),
        e matches Effect::Fact(Fact::Kill { loan }) ==> (
            fact_frame(*old(facts), *final(facts), false, false, false, true, false, false, false, false)
            && exists|ll: usize| named(final(tables).loans, ll, loan@)
                && final(facts).killed@ == old(facts).killed@.push((ll, at))),
        e matches Effect::Fact(Fact::RegionLiveAt { region }) ==> (
            fact_frame(*old(facts), *final(facts), false, false, false, false, true, false, false, false)
            && exists|rr: usize| named(final(tables).regions, rr, region@)
                && final(facts).region_live_at@ == old(facts).region_live_at@.push((rr, at))),
        e matches Effect::Fact(Fact::DefineVariable { variable }) ==> (
            fact_frame(*old(facts), *final(facts), false, false, false, false, false, true, false, false)
            && exists|vv: usize| named(final(tables).variables, vv, variable@)
                && final(facts).var_defined@ == old(facts).var_defined@.push((vv, at))),
        e matches Effect::Fact(Fact::UseVariable { variable }) ==> (
            fact_frame(*old(facts), *final(facts), false, false, false, false, false, false, true, false)
            && exists|vv: usize| named(final(tables).variables, vv, variable@)
                && final(facts).var_used@ == old(facts).var_used@.push((vv, at))),
        e matches Effect::Fact(Fact::DropUseVariable { variable }) ==> (
            fact_frame(*old(facts), *final(facts), false, false, false, false, false, false, false, true)
            && exists|vv: usize| named(final(tables).variables, vv, variable@)
                && final(facts).var_drop_used@ == old(facts).var_drop_used@.push((vv, at))),
        e matches Effect::Use { regions } ==> (
            fact_frame(*old(facts), *final(facts), false, false, false, false, true, false, false, false)
            && crate::sem::extends(final(facts).region_live_at@, old(facts).region_live_at@)
            && forall|k: int|
                #![trigger regions@[k]]
                0 <= k < regions@.len()
                    ==> region_use_emitted(final(tables).regions, *final(facts), regions@[k]@, start)),
{
    match e {
        Effect::Use { regions } => {
            let ghost mut ids: Seq<usize> = Seq::empty();
            let mut k: usize = 0;
            while k < regions.len()
                invariant
                    k <= regions@.len(),
                    tables.wf(),
                    ids.len() == k,
                    fact_frame(*old(facts), *facts, false, false, false, false, true, false,
                        false, false),
                    crate::sem::extends(facts.region_live_at@, old(facts).region_live_at@),
                    forall|k2: int|
                        #![trigger ids[k2]]
                        0 <= k2 < k ==> named(tables.regions, ids[k2], regions@[k2]@)
                            && facts.region_live_at@.contains((ids[k2], start)),
                decreases regions@.len() - k,
            {
                let ghost th = tables.regions;
                let rid = tables.regions.intern(&regions[k]);
                let ghost pre = facts.region_live_at@;
                proof {
                    crate::sem::lemma_push_effect(facts.region_live_at@, (rid, start));
                }
                facts.region_live_at.push((rid, start));
                proof {
                    crate::sem::lemma_extends_contains(pre, facts.region_live_at@);
                    assert forall|k2: int| #![trigger ids[k2]] 0 <= k2 < k
                        implies named(tables.regions, ids[k2], regions@[k2]@)
                            && facts.region_live_at@.contains((ids[k2], start)) by {
                        assert(named(th, ids[k2], regions@[k2]@));
                        assert(tables.regions.names@[ids[k2] as int] == th.names@[ids[k2] as int]);
                        assert(pre.contains((ids[k2], start)));
                    }
                    assert(named(tables.regions, rid, regions@[k as int]@));
                    assert(facts.region_live_at@.contains((rid, start)));
                    ids = ids.push(rid);
                }
                k += 1;
            }
            proof {
                assert forall|k2: int|
                    #![trigger regions@[k2]]
                    0 <= k2 < regions@.len()
                    implies region_use_emitted(tables.regions, *facts, regions@[k2]@, start) by {
                    assert(named(tables.regions, ids[k2], regions@[k2]@));
                }
            }
        },
        Effect::Fact(fact) => {
            match fact {
                Fact::Outlives { a, b } => {
                    let ra = tables.regions.intern(a);
                    let rb = tables.regions.intern(b);
                    facts.outlives.push((ra, rb, at));
                    proof {
                        assert(named(tables.regions, ra, a@));
                        assert(named(tables.regions, rb, b@));
                    }
                },
                Fact::BorrowRegionAt { region, loan } => {
                    let r = tables.regions.intern(region);
                    let l = tables.loans.intern(loan);
                    facts.borrow_region.push((r, l, at));
                    proof {
                        assert(named(tables.regions, r, region@));
                        assert(named(tables.loans, l, loan@));
                    }
                },
                Fact::Invalidates { loan } => {
                    let l = tables.loans.intern(loan);
                    facts.invalidates.push((at, l));
                    proof {
                        assert(named(tables.loans, l, loan@));
                    }
                },
                Fact::Kill { loan } => {
                    let l = tables.loans.intern(loan);
                    facts.killed.push((l, at));
                    proof {
                        assert(named(tables.loans, l, loan@));
                    }
                },
                Fact::RegionLiveAt { region } => {
                    let r = tables.regions.intern(region);
                    facts.region_live_at.push((r, at));
                    proof {
                        assert(named(tables.regions, r, region@));
                    }
                },
                Fact::DefineVariable { variable } => {
                    let v = tables.variables.intern(variable);
                    facts.var_defined.push((v, at));
                    proof {
                        assert(named(tables.variables, v, variable@));
                    }
                },
                Fact::UseVariable { variable } => {
                    let v = tables.variables.intern(variable);
                    facts.var_used.push((v, at));
                    proof {
                        assert(named(tables.variables, v, variable@));
                    }
                },
                Fact::DropUseVariable { variable } => {
                    let v = tables.variables.intern(variable);
                    facts.var_drop_used.push((v, at));
                    proof {
                        assert(named(tables.variables, v, variable@));
                    }
                },
            }
        },
    }
}

/// Lower a program description to flat fact tables.
///
/// Fails exactly when a successor name dangles (it names no block with a
/// point) or the program has too many statements for this machine's point
/// numbering. On success every statement `sj` of block `bi` owns the points
/// `start_point(bi, sj)` and `start_point(bi, sj) + 1`, joined by a CFG edge.
#[verifier::loop_isolation(false)]
pub fn lower_input(input: &Input, tables: &mut InternerTables) -> (r: Result<AllFacts, ParseError>)
    requires
        old(tables).wf(),
    ensures
        final(tables).wf(),
        r is Err <==> (has_dangling_goto(input.blocks@) || too_large(input.blocks@)),
        r matches Ok(facts) ==> forall|bi: int, sj: int|
            0 <= bi < input.blocks@.len() && 0 <= sj < input.blocks@[bi].statements@.len()
                ==> facts.cfg_edge@.contains((
                    start_point(input.blocks@, bi, sj) as usize,
                    (start_point(input.blocks@, bi, sj) + 1) as usize,
                )),
        // Mid-to-next-Start edges: start_point(bi, sj) + 2 == start_point(bi, sj + 1).
        r matches Ok(facts) ==> forall|bi: int, sj: int|
            0 <= bi < input.blocks@.len() && 0 <= sj && sj + 1 < input.blocks@[bi].statements@.len()
                ==> facts.cfg_edge@.contains((
                    (start_point(input.blocks@, bi, sj) + 1) as usize,
                    (start_point(input.blocks@, bi, sj) + 2) as usize,
                )),
{
    let blocks = &input.blocks;
    let half: usize = usize::MAX / 2;

    // Size check: every statement needs two point numbers.
    let mut total: usize = 0;
    let mut bi: usize = 0;
    while bi < blocks.len()
        invariant
            bi <= blocks@.len(),
            total == stmts_before(blocks@, bi as int),
            total <= half,
        decreases blocks@.len() - bi,
    {
        let sl = blocks[bi].statements.len();
        if sl > half - total {
            proof {
                lemma_stmts_before_mono(blocks@, bi as int + 1, blocks@.len() as int);
            }
            return Err(ParseError { message: "program too large for point numbering".to_owned() });
        }
        total = total + sl;
        bi += 1;
    }
    proof {
        assert(!too_large(input.blocks@));
    }

    // Successor validation: every goto must name a block that owns a point.
    let mut bi: usize = 0;
    while bi < blocks.len()
        invariant
            bi <= blocks@.len(),
            forall|bi2: int, g2: int|
                0 <= bi2 < bi && 0 <= g2 < blocks@[bi2].goto@.len()
                    ==> block_has_statements(blocks@, blocks@[bi2].goto@[g2]@),
        decreases blocks@.len() - bi,
    {
        let mut g: usize = 0;
        while g < blocks[bi].goto.len()
            invariant
                g <= blocks@[bi as int].goto@.len(),
                forall|bi2: int, g2: int|
                    0 <= bi2 < bi && 0 <= g2 < blocks@[bi2].goto@.len()
                        ==> block_has_statements(blocks@, blocks@[bi2].goto@[g2]@),
                forall|g2: int|
                    0 <= g2 < g ==> block_has_statements(blocks@, blocks@[bi as int].goto@[g2]@),
            decreases blocks@[bi as int].goto@.len() - g,
        {
            let mut found = false;
            let mut ti: usize = 0;
            while ti < blocks.len()
                invariant
                    ti <= blocks@.len(),
                    found ==> block_has_statements(blocks@, blocks@[bi as int].goto@[g as int]@),
                    !found ==> forall|t2: int|
                        0 <= t2 < ti
                            ==> !(blocks@[t2].name@ == blocks@[bi as int].goto@[g as int]@
                                && blocks@[t2].statements@.len() > 0),
                decreases blocks@.len() - ti,
            {
                if !found && blocks[ti].name.eq(&blocks[bi].goto[g]) && blocks[ti].statements.len() > 0 {
                    found = true;
                }
                ti += 1;
            }
            if !found {
                return Err(ParseError { message: "goto references no block with a point".to_owned() });
            }
            g += 1;
        }
        bi += 1;
    }

    // First Start point of each block.
    let mut starts: Vec<usize> = Vec::new();
    let mut base: usize = 0;
    let mut bi: usize = 0;
    while bi < blocks.len()
        invariant
            bi <= blocks@.len(),
            starts@.len() == bi,
            base == 2 * stmts_before(blocks@, bi as int),
            stmts_before(blocks@, bi as int) <= total,
            total == stmts_before(blocks@, blocks@.len() as int),
            total <= half,
            forall|bi2: int| 0 <= bi2 < bi ==> starts@[bi2] == 2 * stmts_before(blocks@, bi2),
        decreases blocks@.len() - bi,
    {
        proof {
            lemma_stmts_before_mono(blocks@, bi as int + 1, blocks@.len() as int);
        }
        starts.push(base);
        base = base + 2 * blocks[bi].statements.len();
        bi += 1;
    }

    // Emission.
    let mut facts = AllFacts::new();
    let mut pt: usize = 0;
    let mut bi: usize = 0;
    while bi < blocks.len()
        invariant
            bi <= blocks@.len(),
            tables.wf(),
            pt == 2 * stmts_before(blocks@, bi as int),
            stmts_before(blocks@, bi as int) <= total,
            total == stmts_before(blocks@, blocks@.len() as int),
            total <= half,
            starts@.len() == blocks@.len(),
            forall|bi2: int|
                0 <= bi2 < blocks@.len() ==> starts@[bi2] == 2 * stmts_before(blocks@, bi2),
            forall|bi2: int, sj2: int|
                0 <= bi2 < bi && 0 <= sj2 < blocks@[bi2].statements@.len()
                    ==> facts.cfg_edge@.contains((
                        start_point(blocks@, bi2, sj2) as usize,
                        (start_point(blocks@, bi2, sj2) + 1) as usize,
                    )),
            forall|bi2: int, sj2: int|
                0 <= bi2 < bi && 0 <= sj2 && sj2 + 1 < blocks@[bi2].statements@.len()
                    ==> facts.cfg_edge@.contains((
                        (start_point(blocks@, bi2, sj2) + 1) as usize,
                        (start_point(blocks@, bi2, sj2) + 2) as usize,
                    )),
        decreases blocks@.len() - bi,
    {
        let nstmts = blocks[bi].statements.len();
        let mut sj: usize = 0;
        while sj < nstmts
            invariant
                sj <= nstmts,
                nstmts == blocks@[bi as int].statements@.len(),
                tables.wf(),
                pt == start_point(blocks@, bi as int, sj as int),
                stmts_before(blocks@, bi as int) + sj <= total,
                total == stmts_before(blocks@, blocks@.len() as int),
                total <= half,
                starts@.len() == blocks@.len(),
                forall|bi2: int|
                    0 <= bi2 < blocks@.len() ==> starts@[bi2] == 2 * stmts_before(blocks@, bi2),
                forall|bi2: int, sj2: int|
                    0 <= bi2 < bi && 0 <= sj2 < blocks@[bi2].statements@.len()
                        ==> facts.cfg_edge@.contains((
                            start_point(blocks@, bi2, sj2) as usize,
                            (start_point(blocks@, bi2, sj2) + 1) as usize,
                        )),
                forall|bi2: int, sj2: int|
                    0 <= bi2 < bi && 0 <= sj2 && sj2 + 1 < blocks@[bi2].statements@.len()
                        ==> facts.cfg_edge@.contains((
                            (start_point(blocks@, bi2, sj2) + 1) as usize,
                            (start_point(blocks@, bi2, sj2) + 2) as usize,
                        )),
                forall|sj2: int|
                    0 <= sj2 < sj ==> facts.cfg_edge@.contains((
                        start_point(blocks@, bi as int, sj2) as usize,
                        (start_point(blocks@, bi as int, sj2) + 1) as usize,
                    )),
                forall|sj2: int|
                    0 <= sj2 < sj && sj2 + 1 < nstmts ==> facts.cfg_edge@.contains((
                        (start_point(blocks@, bi as int, sj2) + 1) as usize,
                        (start_point(blocks@, bi as int, sj2) + 2) as usize,
                    )),
            decreases nstmts - sj,
        {
            proof {
                assert(stmts_before(blocks@, bi as int + 1)
                    == stmts_before(blocks@, bi as int)
                        + blocks@[bi as int].statements@.len());
                lemma_stmts_before_mono(blocks@, bi as int + 1, blocks@.len() as int);
            }
            let start = pt;
            let mid = pt + 1;
            let ghost pre = facts.cfg_edge@;
            proof {
                lemma_push_effect(facts.cfg_edge@, (start, mid));
            }
            facts.cfg_edge.push((start, mid));
            proof {
                lemma_extends_contains(pre, facts.cfg_edge@);
            }
            if sj + 1 < nstmts {
                let ghost pre2 = facts.cfg_edge@;
                proof {
                    lemma_push_effect(facts.cfg_edge@, (mid, (mid + 1) as usize));
                }
                facts.cfg_edge.push((mid, mid + 1));
                proof {
                    lemma_extends_contains(pre2, facts.cfg_edge@);
                }
            } else {
                // Last statement: edges to each successor block's first point.
                let mut g: usize = 0;
                while g < blocks[bi].goto.len()
                    invariant
                        g <= blocks@[bi as int].goto@.len(),
                        tables.wf(),
                        starts@.len() == blocks@.len(),
                        forall|bi2: int|
                            0 <= bi2 < blocks@.len()
                                ==> starts@[bi2] == 2 * stmts_before(blocks@, bi2),
                        forall|t: (usize, usize)|
                            pre.contains(t) ==> facts.cfg_edge@.contains(t),
                        facts.cfg_edge@.contains((start, mid)),
                    decreases blocks@[bi as int].goto@.len() - g,
                {
                    let mut found = false;
                    let mut target: usize = 0;
                    let mut ti: usize = 0;
                    while ti < blocks.len()
                        invariant
                            ti <= blocks@.len(),
                        decreases blocks@.len() - ti,
                    {
                        if !found && blocks[ti].name.eq(&blocks[bi].goto[g])
                            && blocks[ti].statements.len() > 0 {
                            found = true;
                            target = starts[ti];
                        }
                        ti += 1;
                    }
                    if found {
                        let ghost pre3 = facts.cfg_edge@;
                        proof {
                            lemma_push_effect(facts.cfg_edge@, (mid, target));
                        }
                        facts.cfg_edge.push((mid, target));
                        proof {
                            lemma_extends_contains(pre3, facts.cfg_edge@);
                        }
                    }
                    g += 1;
                }
            }
            let mut k: usize = 0;
            let stmt = &blocks[bi].statements[sj];
            while k < stmt.effects_start.len()
                invariant
                    tables.wf(),
                    forall|t: (usize, usize)| pre.contains(t) ==> facts.cfg_edge@.contains(t),
                    facts.cfg_edge@.contains((start, mid)),
                    sj + 1 < nstmts ==> facts.cfg_edge@.contains((mid, (mid + 1) as usize)),
                decreases stmt.effects_start@.len() - k,
            {
                emit_effect(&stmt.effects_start[k], &mut facts, tables, start, start);
                k += 1;
            }
            let mut k: usize = 0;
            while k < stmt.effects.len()
                invariant
                    tables.wf(),
                    forall|t: (usize, usize)| pre.contains(t) ==> facts.cfg_edge@.contains(t),
                    facts.cfg_edge@.contains((start, mid)),
                    sj + 1 < nstmts ==> facts.cfg_edge@.contains((mid, (mid + 1) as usize)),
                decreases stmt.effects@.len() - k,
            {
                emit_effect(&stmt.effects[k], &mut facts, tables, mid, start);
                k += 1;
            }
            proof {
                assert forall|bi2: int, sj2: int|
                    0 <= bi2 < bi && 0 <= sj2 < blocks@[bi2].statements@.len()
                    implies facts.cfg_edge@.contains((
                        start_point(blocks@, bi2, sj2) as usize,
                        (start_point(blocks@, bi2, sj2) + 1) as usize,
                    )) by {
                    assert(pre.contains((
                        start_point(blocks@, bi2, sj2) as usize,
                        (start_point(blocks@, bi2, sj2) + 1) as usize,
                    )));
                }
                assert forall|sj2: int|
                    0 <= sj2 < sj
                    implies facts.cfg_edge@.contains((
                        start_point(blocks@, bi as int, sj2) as usize,
                        (start_point(blocks@, bi as int, sj2) + 1) as usize,
                    )) by {
                    assert(pre.contains((
                        start_point(blocks@, bi as int, sj2) as usize,
                        (start_point(blocks@, bi as int, sj2) + 1) as usize,
                    )));
                }
                assert forall|bi2: int, sj2: int|
                    0 <= bi2 < bi && 0 <= sj2 && sj2 + 1 < blocks@[bi2].statements@.len()
                    implies facts.cfg_edge@.contains((
                        (start_point(blocks@, bi2, sj2) + 1) as usize,
                        (start_point(blocks@, bi2, sj2) + 2) as usize,
                    )) by {
                    assert(pre.contains((
                        (start_point(blocks@, bi2, sj2) + 1) as usize,
                        (start_point(blocks@, bi2, sj2) + 2) as usize,
                    )));
                }
                assert forall|sj2: int|
                    0 <= sj2 < sj && sj2 + 1 < nstmts
                    implies facts.cfg_edge@.contains((
                        (start_point(blocks@, bi as int, sj2) + 1) as usize,
                        (start_point(blocks@, bi as int, sj2) + 2) as usize,
                    )) by {
                    assert(pre.contains((
                        (start_point(blocks@, bi as int, sj2) + 1) as usize,
                        (start_point(blocks@, bi as int, sj2) + 2) as usize,
                    )));
                }
            }
            pt = pt + 2;
            sj += 1;
        }
        proof {
            assert(stmts_before(blocks@, bi as int + 1)
                == stmts_before(blocks@, bi as int) + blocks@[bi as int].statements@.len());
        }
        bi += 1;
    }

    // Universal regions and the variable-to-region projection tables.
    let mut k: usize = 0;
    while k < input.universal_regions.len()
        invariant
            tables.wf(),
            forall|bi2: int, sj2: int|
                0 <= bi2 < blocks@.len() && 0 <= sj2 < blocks@[bi2].statements@.len()
                    ==> facts.cfg_edge@.contains((
                        start_point(blocks@, bi2, sj2) as usize,
                        (start_point(blocks@, bi2, sj2) + 1) as usize,
                    )),
            forall|bi2: int, sj2: int|
                0 <= bi2 < blocks@.len() && 0 <= sj2 && sj2 + 1 < blocks@[bi2].statements@.len()
                    ==> facts.cfg_edge@.contains((
                        (start_point(blocks@, bi2, sj2) + 1) as usize,
                        (start_point(blocks@, bi2, sj2) + 2) as usize,
                    )),
        decreases input.universal_regions@.len() - k,
    {
        let rid = tables.regions.intern(&input.universal_regions[k]);
        facts.universal_region.push(rid);
        k += 1;
    }
    let mut k: usize = 0;
    while k < input.var_uses_region.len()
        invariant
            tables.wf(),
            forall|bi2: int, sj2: int|
                0 <= bi2 < blocks@.len() && 0 <= sj2 < blocks@[bi2].statements@.len()
                    ==> facts.cfg_edge@.contains((
                        start_point(blocks@, bi2, sj2) as usize,
                        (start_point(blocks@, bi2, sj2) + 1) as usize,
                    )),
            forall|bi2: int, sj2: int|
                0 <= bi2 < blocks@.len() && 0 <= sj2 && sj2 + 1 < blocks@[bi2].statements@.len()
                    ==> facts.cfg_edge@.contains((
                        (start_point(blocks@, bi2, sj2) + 1) as usize,
                        (start_point(blocks@, bi2, sj2) + 2) as usize,
                    )),
        decreases input.var_uses_region@.len() - k,
    {
        let v = tables.variables.intern(&input.var_uses_region[k].0);
        let r = tables.regions.intern(&input.var_uses_region[k].1);
        facts.var_uses_region.push((v, r));
        k += 1;
    }
    let mut k: usize = 0;
    while k < input.var_drops_region.len()
        invariant
            tables.wf(),
            forall|bi2: int, sj2: int|
                0 <= bi2 < blocks@.len() && 0 <= sj2 < blocks@[bi2].statements@.len()
                    ==> facts.cfg_edge@.contains((
                        start_point(blocks@, bi2, sj2) as usize,
                        (start_point(blocks@, bi2, sj2) + 1) as usize,
                    )),
            forall|bi2: int, sj2: int|
                0 <= bi2 < blocks@.len() && 0 <= sj2 && sj2 + 1 < blocks@[bi2].statements@.len()
                    ==> facts.cfg_edge@.contains((
                        (start_point(blocks@, bi2, sj2) + 1) as usize,
                        (start_point(blocks@, bi2, sj2) + 2) as usize,
                    )),
        decreases input.var_drops_region@.len() - k,
    {
        let v = tables.variables.intern(&input.var_drops_region[k].0);
        let r = tables.regions.intern(&input.var_drops_region[k].1);
        facts.var_drops_region.push((v, r));
        k += 1;
    }
    Ok(facts)
}

} // verus!
