use polonius::facts::AllFacts;
use polonius::intern::InternerTables;
use polonius::ir::{Block, Effect, Fact, Input, Statement};
use polonius::lower::lower_input;
use polonius::output::{Algorithm, Output};
use polonius::parser::parse_from_program;

fn s(x: &str) -> String {
    x.to_string()
}

fn block(name: &str, stmts: Vec<Statement>, goto: Vec<&str>) -> Block {
    Block {
        name: s(name),
        statements: stmts,
        goto: goto.into_iter().map(s).collect(),
    }
}

fn lower(input: &Input) -> AllFacts {
    let mut tables = InternerTables::new();
    lower_input(input, &mut tables).expect("Parsing failure")
}

fn parse(program: &str) -> AllFacts {
    let mut tables = InternerTables::new();
    parse_from_program(program, &mut tables).expect("Parsing failure")
}

fn has2(v: &[(usize, usize)], t: (usize, usize)) -> bool {
    v.iter().any(|x| *x == t)
}

fn subset2(a: &[(usize, usize)], b: &[(usize, usize)]) -> bool {
    a.iter().all(|x| has2(b, *x))
}

fn set_eq2(a: &[(usize, usize)], b: &[(usize, usize)]) -> bool {
    subset2(a, b) && subset2(b, a)
}

/// The cross-strategy property suite, run on every fixture.
fn test_facts(all_facts: &AllFacts) {
    let naive = Output::compute(all_facts, Algorithm::Naive, true);

    // The naive errors are a subset of the location-insensitive ones.
    let insensitive = Output::compute(all_facts, Algorithm::LocationInsensitive, false);
    for e in &naive.errors {
        assert!(
            has2(&insensitive.errors, *e),
            "naive error missing from the insensitive analysis: {:?}",
            e
        );
    }

    // The optimized strategy behaves exactly like the naive one.
    let opt = Output::compute(all_facts, Algorithm::DatafrogOpt, true);
    assert!(set_eq2(&naive.borrow_live_at, &opt.borrow_live_at));
    assert!(set_eq2(&naive.errors, &opt.errors));

    // The hybrid strategy reports the same errors as the naive one.
    let hybrid = Output::compute(all_facts, Algorithm::Hybrid, true);
    assert!(set_eq2(&naive.errors, &hybrid.errors));

    // No strategy derives a region as a subset of itself.
    for &(r1, r2, _p) in naive.subset.iter().chain(opt.subset.iter()) {
        assert!(r1 != r2, "subset symmetry: {} in its own subset", r1);
    }
}

fn single_block_facts(effects: Vec<Effect>, universal: Vec<&str>) -> AllFacts {
    let input = Input::new(
        universal.into_iter().map(s).collect(),
        None,
        None,
        vec![block("B0", vec![Statement::new(effects)], vec![])],
    );
    lower(&input)
}

#[test]
fn send_is_not_static_std_sync() {
    // A borrow whose region reaches a live region through one outlives step.
    let program = r"
        universal_regions { }
        block B0 {
            borrow_region_at('a, L0), outlives('a: 'b), region_live_at('b);
        }
    ";
    test_facts(&parse(program));
}

#[test]
fn escape_upvar_nested() {
    // The same pattern with a two-step outlives chain at a single point.
    let program = r"
        universal_regions { }
        block B0 {
            borrow_region_at('a, L0), outlives('a: 'b), outlives('b: 'c), region_live_at('c);
        }
    ";
    test_facts(&parse(program));
}

#[test]
fn issue_31567() {
    // A three-step outlives chain reaching a live region at one point.
    let program = r"
        universal_regions { }
        block B0 {
            borrow_region_at('a, L0),
            outlives('a: 'b),
            outlives('b: 'c),
            outlives('c: 'd),
            region_live_at('d);
        }
    ";
    let facts = parse(program);
    test_facts(&facts);
    // The long outlives chain keeps the loan live, so the equivalence checks
    // above compare non-trivial relations.
    let naive = Output::compute(&facts, Algorithm::Naive, true);
    assert!(!naive.borrow_live_at.is_empty());
}

#[test]
fn borrowed_local_error() {
    // An outlives chain ending in a universal region, with two points.
    let program = r"
        universal_regions { 'c }
        block B0 {
            borrow_region_at('a, L0), outlives('a: 'b), outlives('b: 'c);
        }
    ";
    test_facts(&parse(program));
}

#[test]
// V used in P => V live upon entry into P
fn var_live_in_single_block() {
    // The jumped-to block is declared with a statement, since a successor
    // name that owns no point is a lowering error.
    let program = r"
        universal_regions {  }

        block B0 {
            var_used(V1);
            goto B1;
        }

        block B1 {
            invalidates(L0);
        }
    ";
    let facts = parse(program);
    let liveness = Output::compute(&facts, Algorithm::Naive, true).var_live_at;
    // V1 (id 0) is used at Mid(B0[0]) = point 1, hence live on entry to
    // exactly the two points 0 and 1.
    let mut points: Vec<usize> = liveness.iter().map(|&(_v, p)| p).collect();
    points.sort();
    points.dedup();
    assert_eq!(points.len(), 2);
    for &(v, _p) in &liveness {
        assert_eq!(v, 0);
    }
    assert!(has2(&liveness, (0, 0)));
    assert!(has2(&liveness, (0, 1)));
}

#[test]
// P GOTO Q, V used in Q => V live in P
fn var_live_in_successor_propagates_to_predecessor() {
    let program = r"
        universal_regions {  }

        block B0 {
            invalidates(L0); // generate a point
            goto B1;
        }

        block B1 {
            invalidates(L0);
            goto B2;
        }

        block B2 {
            invalidates(L0);
            var_used(V1);
        }
    ";
    let facts = parse(program);
    let liveness = Output::compute(&facts, Algorithm::Naive, true).var_live_at;
    // One variable only, live across both block boundaries down to point 0.
    for &(v, _p) in &liveness {
        assert_eq!(v, 0);
    }
    assert!(has2(&liveness, (0, 0)), "V1 not live at B0's entry point");
}

#[test]
// P GOTO Q, V used in Q, V defined in P => V not live in P
fn var_live_in_successor_killed_by_reassignment() {
    let program = r"
        universal_regions {  }

        block B0 {
            invalidates(L0); // generate a point
            goto B1;
        }

        block B1 {
            var_defined(V1); // V1 dies
            invalidates(L0);
            goto B2;
        }

        block B2 {
            invalidates(L0);
            var_used(V1);
        }
    ";
    let facts = parse(program);
    let result = Output::compute(&facts, Algorithm::Naive, true);
    let liveness = result.var_live_at;
    // B0 owns points 0/1, the defining statement of B1 owns 2/3.
    let first_defined: usize = 3;
    assert!(!liveness.iter().any(|&(_v, p)| p == 0), "variables were live at start!");
    assert!(
        !liveness.iter().any(|&(_v, p)| p == first_defined),
        "variables were alive at the defining mid-point"
    );
}

#[test]
fn var_drop_used_simple() {
    let program = r"
        universal_regions {  }

        block B0 {
            invalidates(L0); // generate a point
            goto B1;
        }

        block B1 {
            var_defined(V1); // V1 dies
            invalidates(L0);
            goto B2;
        }

        block B2 {
            invalidates(L0);
            var_drop_used(V1);
        }
    ";
    let facts = parse(program);
    let result = Output::compute(&facts, Algorithm::Naive, true);
    let liveness = result.var_drop_live_at;
    let first_defined: usize = 3;
    assert!(!liveness.iter().any(|&(_v, p)| p == 0), "variables were live at start!");
    assert!(
        !liveness.iter().any(|&(_v, p)| p == first_defined),
        "variables were alive at the defining mid-point"
    );
    assert!(has2(&liveness, (0, 4)));
}

#[test]
fn invalidation_of_live_loan_is_reported_exactly_once() {
    // Borrow 'a (flowing into live 'b), then invalidate the loan one
    // statement later: exactly one conflict, at the invalidating mid-point.
    let input = Input::new(
        vec![],
        None,
        None,
        vec![block(
            "B0",
            vec![
                Statement::new(vec![
                    Effect::Fact(Fact::BorrowRegionAt { region: s("'a"), loan: s("L0") }),
                    Effect::Fact(Fact::Outlives { a: s("'a"), b: s("'b") }),
                    Effect::Fact(Fact::RegionLiveAt { region: s("'b") }),
                ]),
                Statement::new(vec![
                    Effect::Fact(Fact::Invalidates { loan: s("L0") }),
                    Effect::Fact(Fact::RegionLiveAt { region: s("'b") }),
                ]),
            ],
            vec![],
        )],
    );
    let facts = lower(&input);
    test_facts(&facts);
    let naive = Output::compute(&facts, Algorithm::Naive, true);
    // The promoted start effect interns 'b first: 'b = 0, 'a = 1, L0 = 0;
    // the two statements own the points (0,1) and (2,3).
    assert_eq!(naive.errors, vec![(3, 0)]);
    let expected_live = vec![(1, 0), (2, 0), (3, 0)];
    assert!(set_eq2(&naive.borrow_live_at, &expected_live));
    assert!(naive.subset.contains(&(1, 0, 1)));
    assert!(!naive.subset.iter().any(|&(r1, r2, _p)| r1 == r2));
    // The location-insensitive strategy reports the same single conflict here.
    let insensitive = Output::compute(&facts, Algorithm::LocationInsensitive, false);
    assert_eq!(insensitive.errors, vec![(3, 0)]);
}

#[test]
fn killed_loan_is_not_reported() {
    // The same borrow, but the loan is killed before the invalidation.
    let input = Input::new(
        vec![],
        None,
        None,
        vec![block(
            "B0",
            vec![
                Statement::new(vec![
                    Effect::Fact(Fact::BorrowRegionAt { region: s("'a"), loan: s("L0") }),
                    Effect::Fact(Fact::Outlives { a: s("'a"), b: s("'b") }),
                    Effect::Fact(Fact::RegionLiveAt { region: s("'b") }),
                ]),
                Statement::new(vec![Effect::Fact(Fact::Kill { loan: s("L0") })]),
                Statement::new(vec![
                    Effect::Fact(Fact::Invalidates { loan: s("L0") }),
                    Effect::Fact(Fact::RegionLiveAt { region: s("'b") }),
                ]),
            ],
            vec![],
        )],
    );
    let facts = lower(&input);
    test_facts(&facts);
    let naive = Output::compute(&facts, Algorithm::Naive, true);
    assert!(naive.errors.is_empty());
}

#[test]
fn region_use_implies_liveness_on_entry() {
    // use('a) asserts region_live_at('a) at the statement's Start point.
    let facts = single_block_facts(vec![Effect::Use { regions: vec![s("'a")] }], vec![]);
    assert!(has2(&facts.region_live_at, (0, 0)));
}

#[test]
fn region_live_promoted_from_mid_to_start() {
    // A region_live_at fact at the mid-point also holds at the start point.
    let stmt = Statement::new(vec![Effect::Fact(Fact::RegionLiveAt { region: s("'a") })]);
    assert_eq!(stmt.effects_start.len(), 1);
    let facts = single_block_facts(
        vec![Effect::Fact(Fact::RegionLiveAt { region: s("'a") })],
        vec![],
    );
    assert!(has2(&facts.region_live_at, (0, 0)));
    assert!(has2(&facts.region_live_at, (0, 1)));
}

#[test]
fn universal_regions_live_everywhere() {
    let facts = single_block_facts(
        vec![Effect::Fact(Fact::Invalidates { loan: s("L0") })],
        vec!["'static"],
    );
    let out = Output::compute(&facts, Algorithm::Naive, true);
    let ur = facts.universal_region[0];
    assert!(has2(&out.region_live_at, (ur, 0)));
    assert!(has2(&out.region_live_at, (ur, 1)));
}

#[test]
fn lowering_point_numbering() {
    // Two blocks of 2 and 1 statements: points 0..5, with the intra-statement,
    // intra-block and successor edges and nothing else.
    let stmt = || Statement::new(vec![Effect::Fact(Fact::Invalidates { loan: s("L0") })]);
    let input = Input::new(
        vec![],
        None,
        None,
        vec![
            block("B0", vec![stmt(), stmt()], vec!["B1"]),
            block("B1", vec![stmt()], vec![]),
        ],
    );
    let facts = lower(&input);
    let mut edges = facts.cfg_edge.clone();
    edges.sort();
    assert_eq!(edges, vec![(0, 1), (1, 2), (2, 3), (3, 4), (4, 5)]);
    assert_eq!(facts.invalidates, vec![(1, 0), (3, 0), (5, 0)]);
}

#[test]
fn lowering_rejects_dangling_goto() {
    let input = Input::new(
        vec![],
        None,
        None,
        vec![block(
            "B0",
            vec![Statement::new(vec![Effect::Fact(Fact::Invalidates { loan: s("L0") })])],
            vec!["B7"],
        )],
    );
    let mut tables = InternerTables::new();
    assert!(lower_input(&input, &mut tables).is_err());
}

#[test]
fn interner_assigns_stable_dense_ids() {
    let mut tables = InternerTables::new();
    let a = tables.regions.intern(&s("'a"));
    let b = tables.regions.intern(&s("'b"));
    let a2 = tables.regions.intern(&s("'a"));
    assert_eq!(a, 0);
    assert_eq!(b, 1);
    assert_eq!(a2, a);
    assert_eq!(tables.regions.len(), 2);
}

#[test]
fn empty_program_has_no_errors() {
    let facts = AllFacts::new();
    for algo in [
        Algorithm::Naive,
        Algorithm::DatafrogOpt,
        Algorithm::LocationInsensitive,
        Algorithm::Hybrid,
    ] {
        let out = Output::compute(&facts, algo, true);
        assert!(out.errors.is_empty());
    }
}

#[test]
fn parse_rejects_unterminated_block() {
    let mut tables = InternerTables::new();
    assert!(parse_from_program("block B0 { invalidates(L0);", &mut tables).is_err());
}

#[test]
fn parse_rejects_unknown_effect_keyword() {
    let mut tables = InternerTables::new();
    assert!(parse_from_program("block B0 { frobnicate(L0); }", &mut tables).is_err());
}

#[test]
fn parse_rejects_universal_regions_after_blocks() {
    // The declaration, when present, leads the program.
    let mut tables = InternerTables::new();
    let program = "block B0 { invalidates(L0); } universal_regions { 'a }";
    assert!(parse_from_program(program, &mut tables).is_err());
}

#[test]
fn parse_rejects_malformed_region_token() {
    let mut tables = InternerTables::new();
    assert!(parse_from_program("block B0 { region_live_at(x); }", &mut tables).is_err());
}

#[test]
fn use_effect_implies_liveness_on_entry() {
    // A region-use marker (structural input only; the textual grammar carries
    // no use effect) asserts region liveness at the statement's Start point.
    let input = Input::new(
        vec![s("'a")],
        None,
        None,
        vec![block(
            "B0",
            vec![Statement::new(vec![
                Effect::Use { regions: vec![s("'a")] },
                Effect::Fact(Fact::Invalidates { loan: s("L0") }),
            ])],
            vec![],
        )],
    );
    let facts = lower(&input);
    assert!(has2(&facts.region_live_at, (0, 0)));
    test_facts(&facts);
}

#[test]
fn var_liveness_projects_onto_regions() {
    // A live variable makes the region of its type live at the same points,
    // through the var_uses_region (and var_drops_region) projection tables.
    let input = Input::new(
        vec![],
        Some(vec![(s("V1"), s("'a"))]),
        Some(vec![(s("V2"), s("'b"))]),
        vec![block(
            "B0",
            vec![
                Statement::new(vec![Effect::Fact(Fact::UseVariable { variable: s("V1") })]),
                Statement::new(vec![Effect::Fact(Fact::DropUseVariable { variable: s("V2") })]),
            ],
            vec![],
        )],
    );
    let facts = lower(&input);
    let out = Output::compute(&facts, Algorithm::Naive, true);
    // V1 = 0 is live at points 0 and 1; V2 = 1 is drop-live at 0..=3; the
    // regions 'a = 0 and 'b = 1 follow them.
    assert!(has2(&out.region_live_at, (0, 0)));
    assert!(has2(&out.region_live_at, (0, 1)));
    assert!(!has2(&out.region_live_at, (0, 2)));
    assert!(has2(&out.region_live_at, (1, 0)));
    assert!(has2(&out.region_live_at, (1, 3)));
}

#[test]
fn invalidation_after_outlives_chain() {
    // The pattern on which an incremental transitive closure is most likely
    // to diverge from the naive one, completed with an invalidation so that
    // an actual conflict must be reported identically by every strategy.
    let program = r"
        universal_regions { }
        block B0 {
            borrow_region_at('a, L0),
            outlives('a: 'b),
            outlives('b: 'c),
            outlives('c: 'd),
            region_live_at('d);
            invalidates(L0), region_live_at('d);
        }
    ";
    let facts = parse(program);
    test_facts(&facts);
    let naive = Output::compute(&facts, Algorithm::Naive, true);
    // L0 = 0; the invalidating statement's mid-point is 3.
    assert_eq!(naive.errors, vec![(3, 0)]);
}
