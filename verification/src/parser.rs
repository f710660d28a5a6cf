//! The textual program mini-language:
//!
//! ```text
//! universal_regions { 'r1, 'r2 }
//! block B0 {
//!     effect, effect;
//!     goto B1, B2;
//! }
//! ```
//!
//! Each effect is one of `outlives('a: 'b)`, `borrow_region_at('a, L0)`,
//! `invalidates(L0)`, `killed(L0)`, `region_live_at('a)`, `var_used(V1)`,
//! `var_defined(V1)`, `var_drop_used(V1)`. `//` starts a line comment.
//!
//! The grammar is stated once as a specification-level parser (`spec_parse`)
//! over the character sequence; the executable parser is proved to accept
//! exactly the texts that `spec_parse` accepts and to return exactly the
//! program description they denote.

use vstd::prelude::*;
use vstd::string::StrSliceExecFns;
use vstd::string::StringExecFns;
use crate::facts::AllFacts;
use crate::intern::InternerTables;
use crate::ir::{Input, Block, Statement, Effect, Fact, is_region_live_effect};
use crate::lower::{ParseError, lower_input, stmts_before, has_dangling_goto, too_large};

verus! {

// ------------------------------------------------------------------
// The denotation of a program text: the structural description with plain
// character-sequence names.

pub enum SpecFact {
    Outlives { a: Seq<char>, b: Seq<char> },
    BorrowRegionAt { region: Seq<char>, loan: Seq<char> },
    Invalidates { loan: Seq<char> },
    Kill { loan: Seq<char> },
    RegionLiveAt { region: Seq<char> },
    DefineVariable { variable: Seq<char> },
    UseVariable { variable: Seq<char> },
    DropUseVariable { variable: Seq<char> },
}

pub enum SpecEffect {
    Use { regions: Seq<Seq<char>> },
    Fact(SpecFact),
}

pub struct SpecStatement {
    pub effects: Seq<SpecEffect>,
}

pub struct SpecBlock {
    pub name: Seq<char>,
    pub statements: Seq<SpecStatement>,
    pub goto: Seq<Seq<char>>,
}

pub struct SpecInput {
    pub universal_regions: Seq<Seq<char>>,
    pub blocks: Seq<SpecBlock>,
}

pub open spec fn names_view(v: Seq<String>) -> Seq<Seq<char>> {
    v.map_values(|s: String| s@)
}

pub open spec fn fact_view(f: Fact) -> SpecFact {
    match f {
        Fact::Outlives { a, b } => SpecFact::Outlives { a: a@, b: b@ },
        Fact::BorrowRegionAt { region, loan } =>
            SpecFact::BorrowRegionAt { region: region@, loan: loan@ },
        Fact::Invalidates { loan } => SpecFact::Invalidates { loan: loan@ },
        Fact::Kill { loan } => SpecFact::Kill { loan: loan@ },
        Fact::RegionLiveAt { region } => SpecFact::RegionLiveAt { region: region@ },
        Fact::DefineVariable { variable } => SpecFact::DefineVariable { variable: variable@ },
        Fact::UseVariable { variable } => SpecFact::UseVariable { variable: variable@ },
        Fact::DropUseVariable { variable } => SpecFact::DropUseVariable { variable: variable@ },
    }
}

pub open spec fn effect_view(e: Effect) -> SpecEffect {
    match e {
        Effect::Use { regions } => SpecEffect::Use { regions: names_view(regions@) },
        Effect::Fact(f) => SpecEffect::Fact(fact_view(f)),
    }
}

pub open spec fn effects_view(v: Seq<Effect>) -> Seq<SpecEffect> {
    v.map_values(|e: Effect| effect_view(e))
}

pub open spec fn statement_view(st: Statement) -> SpecStatement {
    SpecStatement { effects: effects_view(st.effects@) }
}

pub open spec fn statements_view(v: Seq<Statement>) -> Seq<SpecStatement> {
    v.map_values(|st: Statement| statement_view(st))
}

pub open spec fn block_view(b: Block) -> SpecBlock {
    SpecBlock {
        name: b.name@,
        statements: statements_view(b.statements@),
        goto: names_view(b.goto@),
    }
}

pub open spec fn blocks_view(v: Seq<Block>) -> Seq<SpecBlock> {
    v.map_values(|b: Block| block_view(b))
}

pub open spec fn input_view(inp: Input) -> SpecInput {
    SpecInput {
        universal_regions: names_view(inp.universal_regions@),
        blocks: blocks_view(inp.blocks@),
    }
}

/// Every statement's start effects are exactly its promoted mid effects.
pub open spec fn statements_promoted(inp: Input) -> bool {
    forall|bi: int, sj: int|
        0 <= bi < inp.blocks@.len() && 0 <= sj < inp.blocks@[bi].statements@.len()
            ==> inp.blocks@[bi].statements@[sj].effects_start@
                == inp.blocks@[bi].statements@[sj].effects@.filter(
                    |e: Effect| is_region_live_effect(e),
                )
}

// ------------------------------------------------------------------
// The grammar, as a deterministic specification-level parser.

pub open spec fn spec_is_ws(c: char) -> bool {
    c == ' ' || c == '\t' || c == '\n' || c == '\r'
}

pub open spec fn spec_is_ident_char(c: char) -> bool {
    (97 <= c as u32 <= 122) || (65 <= c as u32 <= 90) || (48 <= c as u32 <= 57) || c as u32 == 95
}

/// Advance past whitespace and `//` line comments, one character at a time;
/// `in_comment` tracks an open line comment.
pub open spec fn spec_skip_at(text: Seq<char>, i: int, in_comment: bool) -> int
    decreases text.len() - i,
{
    if i < 0 || i >= text.len() {
        i
    } else if in_comment {
        if text[i] == '\n' {
            spec_skip_at(text, i + 1, false)
        } else {
            spec_skip_at(text, i + 1, true)
        }
    } else if spec_is_ws(text[i]) {
        spec_skip_at(text, i + 1, false)
    } else if text[i] == '/' && i + 1 < text.len() && text[i + 1] == '/' {
        spec_skip_at(text, i + 2, true)
    } else {
        i
    }
}

pub open spec fn spec_skip(text: Seq<char>, i: int) -> int {
    spec_skip_at(text, i, false)
}

/// A skip result is a fixed point of skipping.
pub proof fn lemma_skip_idem(text: Seq<char>, i: int, in_comment: bool)
    ensures
        spec_skip(text, spec_skip_at(text, i, in_comment)) == spec_skip_at(text, i, in_comment),
    decreases text.len() - i,
{
    if i < 0 || i >= text.len() {
    } else if in_comment {
        lemma_skip_idem(text, i + 1, text[i] != '\n');
    } else if spec_is_ws(text[i]) {
        lemma_skip_idem(text, i + 1, false);
    } else if text[i] == '/' && i + 1 < text.len() && text[i + 1] == '/' {
        lemma_skip_idem(text, i + 2, true);
    }
}

pub open spec fn spec_scan_ident(text: Seq<char>, i: int) -> int
    decreases text.len() - i,
{
    if 0 <= i < text.len() && spec_is_ident_char(text[i]) {
        spec_scan_ident(text, i + 1)
    } else {
        i
    }
}

/// A bare identifier after optional trivia: at least one ident character.
pub open spec fn spec_ident(text: Seq<char>, i: int) -> Option<(Seq<char>, int)> {
    let j = spec_skip(text, i);
    let k = spec_scan_ident(text, j);
    if k > j {
        Some((text.subrange(j, k), k))
    } else {
        None
    }
}

/// A tick-prefixed region name, tick included.
pub open spec fn spec_region(text: Seq<char>, i: int) -> Option<(Seq<char>, int)> {
    let j = spec_skip(text, i);
    if 0 <= j < text.len() && text[j] == '\'' {
        let k = spec_scan_ident(text, j + 1);
        if k > j + 1 {
            Some((text.subrange(j, k), k))
        } else {
            None
        }
    } else {
        None
    }
}

/// The character `c` after optional trivia.
pub open spec fn spec_expect(text: Seq<char>, i: int, c: char) -> Option<int> {
    let j = spec_skip(text, i);
    if 0 <= j < text.len() && text[j] == c {
        Some(j + 1)
    } else {
        None
    }
}

/// A single parenthesised bare-identifier argument list: `(Ident)`.
pub open spec fn spec_loan_arg(text: Seq<char>, i: int) -> Option<(Seq<char>, int)> {
    match spec_expect(text, i, '(') {
        None => None,
        Some(i1) => match spec_ident(text, i1) {
            None => None,
            Some((id, i2)) => match spec_expect(text, i2, ')') {
                None => None,
                Some(i3) => Some((id, i3)),
            },
        },
    }
}

/// One effect, after its keyword has been read.
pub open spec fn spec_effect(text: Seq<char>, i: int, kw: Seq<char>) -> Option<(SpecEffect, int)> {
    if kw == "outlives"@ {
        match spec_expect(text, i, '(') {
            None => None,
            Some(i1) => match spec_region(text, i1) {
                None => None,
                Some((a, i2)) => match spec_expect(text, i2, ':') {
                    None => None,
                    Some(i3) => match spec_region(text, i3) {
                        None => None,
                        Some((b, i4)) => match spec_expect(text, i4, ')') {
                            None => None,
                            Some(i5) => Some((SpecEffect::Fact(SpecFact::Outlives { a, b }), i5)),
                        },
                    },
                },
            },
        }
    } else if kw == "borrow_region_at"@ {
        match spec_expect(text, i, '(') {
            None => None,
            Some(i1) => match spec_region(text, i1) {
                None => None,
                Some((region, i2)) => match spec_expect(text, i2, ',') {
                    None => None,
                    Some(i3) => match spec_ident(text, i3) {
                        None => None,
                        Some((loan, i4)) => match spec_expect(text, i4, ')') {
                            None => None,
                            Some(i5) => Some((
                                SpecEffect::Fact(SpecFact::BorrowRegionAt { region, loan }),
                                i5,
                            )),
                        },
                    },
                },
            },
        }
    } else if kw == "invalidates"@ {
        match spec_loan_arg(text, i) {
            None => None,
            Some((loan, i1)) => Some((SpecEffect::Fact(SpecFact::Invalidates { loan }), i1)),
        }
    } else if kw == "killed"@ {
        match spec_loan_arg(text, i) {
            None => None,
            Some((loan, i1)) => Some((SpecEffect::Fact(SpecFact::Kill { loan }), i1)),
        }
    } else if kw == "region_live_at"@ {
        match spec_expect(text, i, '(') {
            None => None,
            Some(i1) => match spec_region(text, i1) {
                None => None,
                Some((region, i2)) => match spec_expect(text, i2, ')') {
                    None => None,
                    Some(i3) => Some((SpecEffect::Fact(SpecFact::RegionLiveAt { region }), i3)),
                },
            },
        }
    } else if kw == "var_used"@ {
        match spec_loan_arg(text, i) {
            None => None,
            Some((variable, i1)) =>
                Some((SpecEffect::Fact(SpecFact::UseVariable { variable }), i1)),
        }
    } else if kw == "var_defined"@ {
        match spec_loan_arg(text, i) {
            None => None,
            Some((variable, i1)) =>
                Some((SpecEffect::Fact(SpecFact::DefineVariable { variable }), i1)),
        }
    } else if kw == "var_drop_used"@ {
        match spec_loan_arg(text, i) {
            None => None,
            Some((variable, i1)) =>
                Some((SpecEffect::Fact(SpecFact::DropUseVariable { variable }), i1)),
        }
    } else {
        None
    }
}

/// The rest of a comma-separated effect list, ending at `;` (consumed).
pub open spec fn spec_effects(text: Seq<char>, i: int) -> Option<(Seq<SpecEffect>, int)>
    decreases text.len() - i,
{
    let j = spec_skip(text, i);
    if 0 <= j < text.len() && text[j] == ';' {
        Some((Seq::empty(), j + 1))
    } else {
        match spec_expect(text, j, ',') {
            None => None,
            Some(i1) => match spec_ident(text, i1) {
                None => None,
                Some((w, i2)) => match spec_effect(text, i2, w) {
                    None => None,
                    Some((e, i3)) => if i3 <= i || i3 > text.len() {
                        None
                    } else {
                        match spec_effects(text, i3) {
                            None => None,
                            Some((es, i4)) => Some((seq![e] + es, i4)),
                        }
                    },
                },
            },
        }
    }
}

/// One statement: its first effect's keyword already read; the remaining
/// effects up to the terminating `;`.
pub open spec fn spec_statement(text: Seq<char>, i: int, kw: Seq<char>) -> Option<(SpecStatement, int)> {
    match spec_effect(text, i, kw) {
        None => None,
        Some((e0, i2)) => match spec_effects(text, i2) {
            None => None,
            Some((es, i3)) => Some((SpecStatement { effects: seq![e0] + es }, i3)),
        },
    }
}

/// The rest of a comma-separated goto target list, ending at `;` (consumed).
pub open spec fn spec_goto_list(text: Seq<char>, i: int) -> Option<(Seq<Seq<char>>, int)>
    decreases text.len() - i,
{
    let j = spec_skip(text, i);
    if 0 <= j < text.len() && text[j] == ';' {
        Some((Seq::empty(), j + 1))
    } else {
        match spec_expect(text, j, ',') {
            None => None,
            Some(i1) => match spec_ident(text, i1) {
                None => None,
                Some((g, i2)) => if i2 <= i || i2 > text.len() {
                    None
                } else {
                    match spec_goto_list(text, i2) {
                        None => None,
                        Some((gs, i3)) => Some((seq![g] + gs, i3)),
                    }
                },
            },
        }
    }
}

/// The statements of a block, up to and including the closing `}`; an
/// optional `goto` list must come last.
pub open spec fn spec_stmts(text: Seq<char>, i: int) -> Option<(Seq<SpecStatement>, Seq<Seq<char>>, int)>
    decreases text.len() - i,
{
    let j = spec_skip(text, i);
    if 0 <= j < text.len() && text[j] == '}' {
        Some((Seq::empty(), Seq::empty(), j + 1))
    } else {
        match spec_ident(text, j) {
            None => None,
            Some((w, i1)) => if w == "goto"@ {
                match spec_ident(text, i1) {
                    None => None,
                    Some((g0, i2)) => match spec_goto_list(text, i2) {
                        None => None,
                        Some((gs, i3)) => match spec_expect(text, i3, '}') {
                            None => None,
                            Some(i4) => Some((Seq::empty(), seq![g0] + gs, i4)),
                        },
                    },
                }
            } else {
                match spec_statement(text, i1, w) {
                    None => None,
                    Some((st, i3)) => if i3 <= i || i3 > text.len() {
                        None
                    } else {
                        match spec_stmts(text, i3) {
                            None => None,
                            Some((sts, gs, i4)) => Some((seq![st] + sts, gs, i4)),
                        }
                    },
                }
            },
        }
    }
}

/// One block, after the `block` keyword: name, `{`, statements, `}`.
pub open spec fn spec_block(text: Seq<char>, i: int) -> Option<(SpecBlock, int)> {
    match spec_ident(text, i) {
        None => None,
        Some((name, i1)) => match spec_expect(text, i1, '{') {
            None => None,
            Some(i2) => match spec_stmts(text, i2) {
                None => None,
                Some((sts, gs, i3)) => Some((SpecBlock { name, statements: sts, goto: gs }, i3)),
            },
        },
    }
}

/// The rest of a universal-region list, up to and including `}`.
pub open spec fn spec_ulist(text: Seq<char>, i: int) -> Option<(Seq<Seq<char>>, int)>
    decreases text.len() - i,
{
    let j = spec_skip(text, i);
    if 0 <= j < text.len() && text[j] == '}' {
        Some((Seq::empty(), j + 1))
    } else {
        match spec_expect(text, j, ',') {
            None => None,
            Some(i1) => match spec_region(text, i1) {
                None => None,
                Some((r, i2)) => if i2 <= i || i2 > text.len() {
                    None
                } else {
                    match spec_ulist(text, i2) {
                        None => None,
                        Some((rs, i3)) => Some((seq![r] + rs, i3)),
                    }
                },
            },
        }
    }
}

/// The universal-region declaration, after its keyword.
pub open spec fn spec_universal(text: Seq<char>, i: int) -> Option<(Seq<Seq<char>>, int)> {
    match spec_expect(text, i, '{') {
        None => None,
        Some(i1) => {
            let j = spec_skip(text, i1);
            if 0 <= j < text.len() && text[j] == '}' {
                Some((Seq::empty(), j + 1))
            } else {
                match spec_region(text, j) {
                    None => None,
                    Some((r0, i2)) => match spec_ulist(text, i2) {
                        None => None,
                        Some((rs, i3)) => Some((seq![r0] + rs, i3)),
                    },
                }
            }
        },
    }
}

/// The remaining `block` declarations, to the end of the text.
pub open spec fn spec_blocks(text: Seq<char>, i: int) -> Option<Seq<SpecBlock>>
    decreases text.len() - i,
{
    let j = spec_skip(text, i);
    if j >= text.len() {
        Some(Seq::empty())
    } else {
        match spec_ident(text, j) {
            None => None,
            Some((kw, i1)) => if kw != "block"@ {
                None
            } else {
                match spec_block(text, i1) {
                    None => None,
                    Some((b, i2)) => if i2 <= i || i2 > text.len() {
                        None
                    } else {
                        match spec_blocks(text, i2) {
                            None => None,
                            Some(bs) => Some(seq![b] + bs),
                        }
                    },
                }
            },
        }
    }
}

/// A whole program: an optional leading `universal_regions` declaration,
/// then any number of blocks, then the end of the text.
pub open spec fn spec_parse(text: Seq<char>) -> Option<SpecInput> {
    let j = spec_skip(text, 0);
    if j >= text.len() {
        Some(SpecInput { universal_regions: Seq::empty(), blocks: Seq::empty() })
    } else {
        match spec_ident(text, j) {
            None => None,
            Some((kw, i1)) => if kw == "universal_regions"@ {
                match spec_universal(text, i1) {
                    None => None,
                    Some((uni, i2)) => match spec_blocks(text, i2) {
                        None => None,
                        Some(bs) => Some(SpecInput { universal_regions: uni, blocks: bs }),
                    },
                }
            } else if kw == "block"@ {
                match spec_block(text, i1) {
                    None => None,
                    Some((b0, i2)) => match spec_blocks(text, i2) {
                        None => None,
                        Some(bs) => Some(SpecInput {
                            universal_regions: Seq::empty(),
                            blocks: seq![b0] + bs,
                        }),
                    },
                }
            } else {
                None
            },
        }
    }
}

// ------------------------------------------------------------------
// The executable parser, proved equal to the grammar.

fn fail(reason: &str) -> (r: ParseError) {
    ParseError { message: reason.to_owned() }
}

fn is_ident_char(c: char) -> (r: bool)
    ensures
        r == spec_is_ident_char(c),
{
    let b = c as u32;
    (b >= 97 && b <= 122) || (b >= 65 && b <= 90) || (b >= 48 && b <= 57) || b == 95
}

fn skip_trivia(s: &str, n: usize, i: &mut usize)
    requires
        n == s@.len(),
        *old(i) <= n,
    ensures
        *old(i) <= *final(i) <= n,
        *final(i) == spec_skip(s@, *old(i) as int),
{
    loop
        invariant
            *i <= n,
            *old(i) <= *i,
            n == s@.len(),
            spec_skip(s@, *old(i) as int) == spec_skip(s@, *i as int),
        decreases n - *i,
    {
        if *i >= n {
            return;
        }
        let c = s.get_char(*i);
        if c == ' ' || c == '\t' || c == '\n' || c == '\r' {
            *i = *i + 1;
        } else if c == '/' && *i + 1 < n && s.get_char(*i + 1) == '/' {
            *i = *i + 2;
            let ghost ibr = *i;
            while *i < n && s.get_char(*i) != '\n'
                invariant
                    ibr <= *i <= n,
                    *old(i) <= *i,
                    n == s@.len(),
                    spec_skip(s@, *old(i) as int) == spec_skip_at(s@, *i as int, true),
                decreases n - *i,
            {
                *i = *i + 1;
            }
        } else {
            return;
        }
    }
}

fn peek_is(s: &str, n: usize, i: usize, c: char) -> (r: bool)
    requires
        n == s@.len(),
        i <= n,
    ensures
        r == (i < s@.len() && s@[i as int] == c),
{
    i < n && s.get_char(i) == c
}

fn expect_char(s: &str, n: usize, i: &mut usize, c: char) -> (r: Result<(), ParseError>)
    requires
        n == s@.len(),
        *old(i) <= n,
    ensures
        *old(i) <= *final(i) <= n,
        r is Ok <==> spec_expect(s@, *old(i) as int, c) is Some,
        r is Ok ==> spec_expect(s@, *old(i) as int, c) == Some(*final(i) as int)
            && *final(i) > *old(i),
{
    skip_trivia(s, n, i);
    if *i < n && s.get_char(*i) == c {
        *i = *i + 1;
        Ok(())
    } else {
        Err(fail("unexpected character"))
    }
}

/// Read a bare identifier: letters, digits and underscores, at least one.
fn read_ident(s: &str, n: usize, i: &mut usize) -> (r: Result<String, ParseError>)
    requires
        n == s@.len(),
        *old(i) <= n,
    ensures
        *old(i) <= *final(i) <= n,
        r is Ok <==> spec_ident(s@, *old(i) as int) is Some,
        r matches Ok(out) ==> spec_ident(s@, *old(i) as int) == Some((out@, *final(i) as int))
            && *final(i) > *old(i),
{
    skip_trivia(s, n, i);
    let start = *i;
    while *i < n && is_ident_char(s.get_char(*i))
        invariant
            start <= *i <= n,
            n == s@.len(),
            spec_scan_ident(s@, start as int) == spec_scan_ident(s@, *i as int),
        decreases n - *i,
    {
        *i = *i + 1;
    }
    if *i == start {
        return Err(fail("expected an identifier"));
    }
    Ok(s.substring_char(start, *i).to_owned())
}

/// Read a tick-prefixed region name, tick included.
fn read_region(s: &str, n: usize, i: &mut usize) -> (r: Result<String, ParseError>)
    requires
        n == s@.len(),
        *old(i) <= n,
    ensures
        *old(i) <= *final(i) <= n,
        r is Ok <==> spec_region(s@, *old(i) as int) is Some,
        r matches Ok(out) ==> spec_region(s@, *old(i) as int) == Some((out@, *final(i) as int))
            && *final(i) > *old(i),
{
    skip_trivia(s, n, i);
    let start = *i;
    if !(*i < n && s.get_char(*i) == '\'') {
        return Err(fail("expected a tick-prefixed region name"));
    }
    *i = *i + 1;
    let before = *i;
    while *i < n && is_ident_char(s.get_char(*i))
        invariant
            start < before <= *i <= n,
            n == s@.len(),
            spec_scan_ident(s@, before as int) == spec_scan_ident(s@, *i as int),
        decreases n - *i,
    {
        *i = *i + 1;
    }
    if *i == before {
        return Err(fail("expected a region name after the tick"));
    }
    Ok(s.substring_char(start, *i).to_owned())
}

/// Read `(Ident)`, the argument form of the loan and variable effects.
fn read_loan_arg(s: &str, n: usize, i: &mut usize) -> (r: Result<String, ParseError>)
    requires
        n == s@.len(),
        *old(i) <= n,
    ensures
        *old(i) <= *final(i) <= n,
        r is Ok <==> spec_loan_arg(s@, *old(i) as int) is Some,
        r matches Ok(out) ==> spec_loan_arg(s@, *old(i) as int)
            == Some((out@, *final(i) as int)) && *final(i) > *old(i),
{
    expect_char(s, n, i, '(')?;
    let id = read_ident(s, n, i)?;
    expect_char(s, n, i, ')')?;
    Ok(id)
}

/// Parse one effect, after its leading keyword has been read.
fn parse_effect(s: &str, n: usize, i: &mut usize, keyword: &String) -> (r: Result<Effect, ParseError>)
    requires
        n == s@.len(),
        *old(i) <= n,
    ensures
        *old(i) <= *final(i) <= n,
        r is Ok <==> spec_effect(s@, *old(i) as int, keyword@) is Some,
        r matches Ok(e) ==> spec_effect(s@, *old(i) as int, keyword@)
            == Some((effect_view(e), *final(i) as int)) && *final(i) > *old(i),
{
    if keyword.eq(&String::from_str("outlives")) {
        expect_char(s, n, i, '(')?;
        let a = read_region(s, n, i)?;
        expect_char(s, n, i, ':')?;
        let b = read_region(s, n, i)?;
        expect_char(s, n, i, ')')?;
        Ok(Effect::Fact(Fact::Outlives { a, b }))
    } else if keyword.eq(&String::from_str("borrow_region_at")) {
        expect_char(s, n, i, '(')?;
        let region = read_region(s, n, i)?;
        expect_char(s, n, i, ',')?;
        let loan = read_ident(s, n, i)?;
        expect_char(s, n, i, ')')?;
        Ok(Effect::Fact(Fact::BorrowRegionAt { region, loan }))
    } else if keyword.eq(&String::from_str("invalidates")) {
        let loan = read_loan_arg(s, n, i)?;
        Ok(Effect::Fact(Fact::Invalidates { loan }))
    } else if keyword.eq(&String::from_str("killed")) {
        let loan = read_loan_arg(s, n, i)?;
        Ok(Effect::Fact(Fact::Kill { loan }))
    } else if keyword.eq(&String::from_str("region_live_at")) {
        expect_char(s, n, i, '(')?;
        let region = read_region(s, n, i)?;
        expect_char(s, n, i, ')')?;
        Ok(Effect::Fact(Fact::RegionLiveAt { region }))
    } else if keyword.eq(&String::from_str("var_used")) {
        let variable = read_loan_arg(s, n, i)?;
        Ok(Effect::Fact(Fact::UseVariable { variable }))
    } else if keyword.eq(&String::from_str("var_defined")) {
        let variable = read_loan_arg(s, n, i)?;
        Ok(Effect::Fact(Fact::DefineVariable { variable }))
    } else if keyword.eq(&String::from_str("var_drop_used")) {
        let variable = read_loan_arg(s, n, i)?;
        Ok(Effect::Fact(Fact::DropUseVariable { variable }))
    } else {
        Err(fail("unknown effect keyword"))
    }
}

/// Parse one statement, after its first effect's keyword has been read.
#[verifier::loop_isolation(false)]
fn parse_statement(s: &str, n: usize, i: &mut usize, keyword: &String) -> (r: Result<Statement, ParseError>)
    requires
        n == s@.len(),
        *old(i) <= n,
    ensures
        *old(i) <= *final(i) <= n,
        r is Ok <==> spec_statement(s@, *old(i) as int, keyword@) is Some,
        r matches Ok(st) ==> spec_statement(s@, *old(i) as int, keyword@)
            == Some((statement_view(st), *final(i) as int)) && *final(i) > *old(i),
        r matches Ok(st) ==> st.effects_start@
            == st.effects@.filter(|e: Effect| is_region_live_effect(e)),
{
    let mut effects: Vec<Effect> = Vec::new();
    let first = parse_effect(s, n, i, keyword)?;
    effects.push(first);
    proof {
        assert(effects_view(effects@) =~= seq![effect_view(first)]);
    }
    let mut done = false;
    while !done
        invariant
            *i <= n,
            *old(i) < *i,
            effects@.len() >= 1,
            !done ==> (spec_statement(s@, *old(i) as int, keyword@) matches Some(p)
                ==> spec_effects(s@, *i as int) matches Some(q)
                    && p.0.effects == effects_view(effects@) + q.0 && p.1 == q.1),
            !done ==> (spec_statement(s@, *old(i) as int, keyword@) is None
                ==> spec_effects(s@, *i as int) is None),
            done ==> (spec_statement(s@, *old(i) as int, keyword@) matches Some(p)
                && p.0.effects == effects_view(effects@) && p.1 == *i as int),
        decreases n - *i + (if done { 0int } else { 1int }),
    {
        let ghost ih = *i as int;
        skip_trivia(s, n, i);
        if peek_is(s, n, *i, ';') {
            proof {
                assert(spec_effects(s@, ih) == Some((Seq::<SpecEffect>::empty(), *i + 1)));
            }
            *i = *i + 1;
            proof {
                assert(effects_view(effects@) + Seq::<SpecEffect>::empty()
                    =~= effects_view(effects@));
            }
            done = true;
        } else {
            proof {
                lemma_skip_idem(s@, ih, false);
            }
            let ghost jq = *i as int;
            expect_char(s, n, i, ',')?;
            let word = read_ident(s, n, i)?;
            let more = parse_effect(s, n, i, &word)?;
            let ghost pre = effects@;
            effects.push(more);
            proof {
                assert(spec_expect(s@, jq, ',') == spec_expect(s@, ih, ','));
                assert(effects_view(effects@) =~= effects_view(pre).push(effect_view(more)));
                if spec_statement(s@, *old(i) as int, keyword@) is Some
                    && spec_effects(s@, ih) is Some {
                    let q = spec_effects(s@, ih)->Some_0;
                    assert(effects_view(pre) + (seq![effect_view(more)] + q.0)
                        =~= effects_view(effects@) + q.0);
                }
            }
        }
    }
    let st = Statement::new(effects);
    proof {
        if spec_statement(s@, *old(i) as int, keyword@) is Some {
            let p = spec_statement(s@, *old(i) as int, keyword@)->Some_0;
            assert(statement_view(st) == SpecStatement { effects: effects_view(st.effects@) });
            assert(p.0 == SpecStatement { effects: p.0.effects });
        }
    }
    Ok(st)
}

/// Parse the universal-region declaration, after its keyword.
#[verifier::loop_isolation(false)]
fn parse_universal(s: &str, n: usize, i: &mut usize) -> (r: Result<Vec<String>, ParseError>)
    requires
        n == s@.len(),
        *old(i) <= n,
    ensures
        *old(i) <= *final(i) <= n,
        r is Ok <==> spec_universal(s@, *old(i) as int) is Some,
        r matches Ok(uni) ==> spec_universal(s@, *old(i) as int)
            matches Some(p) && names_view(uni@) == p.0 && *final(i) == p.1,
{
    expect_char(s, n, i, '{')?;
    let mut uni: Vec<String> = Vec::new();
    let ghost i1 = *i as int;
    skip_trivia(s, n, i);
    if peek_is(s, n, *i, '}') {
        *i = *i + 1;
        proof {
            assert(names_view(uni@) =~= Seq::<Seq<char>>::empty());
        }
        return Ok(uni);
    }
    let ghost jh = *i as int;
    let first = read_region(s, n, i)?;
    proof {
        assert(spec_region(s@, jh) == spec_region(s@, i1)) by {
            lemma_skip_idem(s@, i1, false);
        }
    }
    uni.push(first);
    proof {
        assert(names_view(uni@) =~= seq![first@]);
    }
    let mut done = false;
    while !done
        invariant
            *old(i) < *i <= n,
            uni@.len() >= 1,
            !done ==> (spec_universal(s@, *old(i) as int) matches Some(p)
                ==> spec_ulist(s@, *i as int) matches Some(q)
                    && p.0 == names_view(uni@) + q.0 && p.1 == q.1),
            !done ==> (spec_universal(s@, *old(i) as int) is None
                ==> spec_ulist(s@, *i as int) is None),
            done ==> (spec_universal(s@, *old(i) as int) matches Some(p)
                && p.0 == names_view(uni@) && p.1 == *i as int),
        decreases n - *i + (if done { 0int } else { 1int }),
    {
        let ghost ih = *i as int;
        skip_trivia(s, n, i);
        if peek_is(s, n, *i, '}') {
            proof {
                assert(spec_ulist(s@, ih) == Some((Seq::<Seq<char>>::empty(), *i + 1)));
            }
            *i = *i + 1;
            proof {
                assert(names_view(uni@) + Seq::<Seq<char>>::empty() =~= names_view(uni@));
            }
            done = true;
        } else {
            proof {
                lemma_skip_idem(s@, ih, false);
            }
            let ghost jq = *i as int;
            expect_char(s, n, i, ',')?;
            let more = read_region(s, n, i)?;
            let ghost pre = uni@;
            uni.push(more);
            proof {
                assert(spec_expect(s@, jq, ',') == spec_expect(s@, ih, ','));
                assert(names_view(uni@) =~= names_view(pre).push(more@));
                if spec_ulist(s@, ih) is Some {
                    let q = spec_ulist(s@, ih)->Some_0;
                    assert(names_view(pre) + (seq![more@] + q.0.skip(1))
                        =~= names_view(uni@) + q.0.skip(1));
                    assert(q.0 =~= seq![more@] + q.0.skip(1));
                }
            }
        }
    }
    Ok(uni)
}

/// Parse one block, after the `block` keyword.
#[verifier::loop_isolation(false)]
#[verifier::rlimit(50)]
fn parse_block(s: &str, n: usize, i: &mut usize) -> (r: Result<Block, ParseError>)
    requires
        n == s@.len(),
        *old(i) <= n,
    ensures
        *old(i) <= *final(i) <= n,
        r is Ok <==> spec_block(s@, *old(i) as int) is Some,
        r matches Ok(b) ==> spec_block(s@, *old(i) as int)
            matches Some(p) && block_view(b) == p.0 && *final(i) == p.1
            && *final(i) > *old(i),
        r matches Ok(b) ==> forall|sj: int|
            0 <= sj < b.statements@.len()
                ==> b.statements@[sj].effects_start@
                    == b.statements@[sj].effects@.filter(|e: Effect| is_region_live_effect(e)),
{
    let name = read_ident(s, n, i)?;
    expect_char(s, n, i, '{')?;
    let mut statements: Vec<Statement> = Vec::new();
    let mut goto: Vec<String> = Vec::new();
    proof {
        assert(statements_view(statements@) =~= Seq::<SpecStatement>::empty());
    }
    let mut done = false;
    while !done
        invariant
            *old(i) < *i <= n,
            forall|sj: int|
                0 <= sj < statements@.len()
                    ==> statements@[sj].effects_start@
                        == statements@[sj].effects@.filter(|e: Effect| is_region_live_effect(e)),
            !done ==> goto@.len() == 0,
            !done ==> (spec_block(s@, *old(i) as int) matches Some(p)
                ==> spec_stmts(s@, *i as int) matches Some(q)
                    && p.0.name == name@
                    && p.0.statements == statements_view(statements@) + q.0
                    && p.0.goto == q.1 && p.1 == q.2),
            !done ==> (spec_block(s@, *old(i) as int) is None
                ==> spec_stmts(s@, *i as int) is None),
            done ==> (spec_block(s@, *old(i) as int) matches Some(p)
                ==> p.0.name == name@
                    && p.0.statements == statements_view(statements@)
                    && p.0.goto == names_view(goto@)
                    && spec_expect(s@, *i as int, '}') == Some(p.1)),
            done ==> (spec_block(s@, *old(i) as int) is None
                ==> spec_expect(s@, *i as int, '}') is None),
        decreases n - *i + (if done { 0int } else { 1int }),
    {
        let ghost ih = *i as int;
        skip_trivia(s, n, i);
        if peek_is(s, n, *i, '}') {
            proof {
                lemma_skip_idem(s@, ih, false);
                assert(spec_stmts(s@, ih)
                    == Some((Seq::<SpecStatement>::empty(), Seq::<Seq<char>>::empty(), *i + 1)));
                assert(statements_view(statements@) + Seq::<SpecStatement>::empty()
                    =~= statements_view(statements@));
                assert(names_view(goto@) =~= Seq::<Seq<char>>::empty());
                assert(spec_expect(s@, *i as int, '}') == Some(*i + 1));
            }
            done = true;
        } else {
            proof {
                lemma_skip_idem(s@, ih, false);
            }
            let ghost jh = *i as int;
            let word = read_ident(s, n, i)?;
            proof {
                assert(spec_ident(s@, jh) == spec_ident(s@, ih));
            }
            if word.eq(&String::from_str("goto")) {
                let first = read_ident(s, n, i)?;
                goto.push(first);
                proof {
                    assert(names_view(goto@) =~= seq![first@]);
                }
                let mut gdone = false;
                while !gdone
                    invariant
                        *old(i) < *i <= n,
                        ih < *i,
                        goto@.len() >= 1,
                        !gdone ==> (spec_block(s@, *old(i) as int) matches Some(p)
                            ==> spec_goto_list(s@, *i as int) matches Some(q)
                                && p.0.name == name@
                                && p.0.statements == statements_view(statements@)
                                && p.0.goto == names_view(goto@) + q.0
                                && spec_expect(s@, q.1, '}') == Some(p.1)),
                        !gdone ==> (spec_block(s@, *old(i) as int) is None
                            ==> (spec_goto_list(s@, *i as int) is None
                                || (spec_goto_list(s@, *i as int) matches Some(q)
                                    && spec_expect(s@, q.1, '}') is None))),
                        gdone ==> (spec_block(s@, *old(i) as int) matches Some(p)
                            ==> p.0.name == name@
                                && p.0.statements == statements_view(statements@)
                                && p.0.goto == names_view(goto@)
                                && spec_expect(s@, *i as int, '}') == Some(p.1)),
                        gdone ==> (spec_block(s@, *old(i) as int) is None
                            ==> spec_expect(s@, *i as int, '}') is None),
                    decreases n - *i + (if gdone { 0int } else { 1int }),
                {
                    let ghost gh = *i as int;
                    skip_trivia(s, n, i);
                    if peek_is(s, n, *i, ';') {
                        proof {
                            assert(spec_goto_list(s@, gh)
                                == Some((Seq::<Seq<char>>::empty(), *i + 1)));
                        }
                        *i = *i + 1;
                        proof {
                            assert(names_view(goto@) + Seq::<Seq<char>>::empty()
                                =~= names_view(goto@));
                        }
                        gdone = true;
                    } else {
                        proof {
                            lemma_skip_idem(s@, gh, false);
                        }
                        let ghost gq = *i as int;
                        expect_char(s, n, i, ',')?;
                        let more = read_ident(s, n, i)?;
                        let ghost pre = goto@;
                        goto.push(more);
                        proof {
                            assert(spec_expect(s@, gq, ',') == spec_expect(s@, gh, ','));
                            assert(names_view(goto@) =~= names_view(pre).push(more@));
                            if spec_goto_list(s@, gh) is Some {
                                let q = spec_goto_list(s@, gh)->Some_0;
                                assert(names_view(pre) + (seq![more@] + q.0.skip(1))
                                    =~= names_view(goto@) + q.0.skip(1));
                                assert(q.0 =~= seq![more@] + q.0.skip(1));
                            }
                        }
                    }
                }
                done = true;
            } else {
                let st = parse_statement(s, n, i, &word)?;
                let ghost pre = statements@;
                statements.push(st);
                proof {
                    assert(statements_view(statements@)
                        =~= statements_view(pre).push(statement_view(st)));
                    if spec_stmts(s@, ih) is Some && spec_stmts(s@, *i as int) is Some {
                        let q = spec_stmts(s@, *i as int)->Some_0;
                        assert(statements_view(pre) + (seq![statement_view(st)] + q.0)
                            =~= statements_view(statements@) + q.0);
                    }
                }
            }
        }
    }
    expect_char(s, n, i, '}')?;
    Ok(Block { name, statements, goto })
}

/// Parse a whole program into its structural description.
///
/// Succeeds exactly on the texts of the grammar (`spec_parse`), returning
/// exactly the program description the text denotes; on any other text it
/// fails with a `ParseError`.
#[verifier::loop_isolation(false)]
pub fn parse_input(text: &str) -> (r: Result<Input, ParseError>)
    ensures
        r is Ok <==> spec_parse(text@) is Some,
        r matches Ok(inp) ==> spec_parse(text@) == Some(input_view(inp)),
        r matches Ok(inp) ==> inp.var_uses_region@.len() == 0
            && inp.var_drops_region@.len() == 0 && statements_promoted(inp),
{
    let s = text;
    let n = s.unicode_len();
    let mut i: usize = 0;
    let mut universal: Vec<String> = Vec::new();
    let mut blocks: Vec<Block> = Vec::new();
    skip_trivia(s, n, &mut i);
    if i >= n {
        let inp = Input::new(universal, None, None, blocks);
        proof {
            assert(names_view(inp.universal_regions@) =~= Seq::<Seq<char>>::empty());
            assert(blocks_view(inp.blocks@) =~= Seq::<SpecBlock>::empty());
            assert(spec_parse(text@) matches Some(si) && si == input_view(inp));
        }
        return Ok(inp);
    }
    let ghost j0 = i as int;
    let kw = read_ident(s, n, &mut i)?;
    proof {
        lemma_skip_idem(s@, 0, false);
        assert(spec_ident(s@, j0) == spec_ident(s@, spec_skip(s@, 0)));
    }
    if kw.eq(&String::from_str("universal_regions")) {
        let uni = parse_universal(s, n, &mut i)?;
        universal = uni;
    } else if kw.eq(&String::from_str("block")) {
        let b0 = parse_block(s, n, &mut i)?;
        proof {
            assert(blocks_view(blocks@.push(b0)) =~= seq![block_view(b0)]);
        }
        blocks.push(b0);
    } else {
        return Err(fail("expected a block or a universal_regions declaration"));
    }
    let ghost uni_v = names_view(universal@);
    let mut done = false;
    while !done
        invariant
            i <= n,
            names_view(universal@) == uni_v,
            forall|bi: int, sj: int|
                0 <= bi < blocks@.len() && 0 <= sj < blocks@[bi].statements@.len()
                    ==> blocks@[bi].statements@[sj].effects_start@
                        == blocks@[bi].statements@[sj].effects@.filter(
                            |e: Effect| is_region_live_effect(e),
                        ),
            !done ==> (spec_parse(s@) matches Some(si)
                ==> spec_blocks(s@, i as int) matches Some(rest)
                    && si.universal_regions == uni_v
                    && si.blocks == blocks_view(blocks@) + rest),
            !done ==> (spec_parse(s@) is None ==> spec_blocks(s@, i as int) is None),
            done ==> (spec_parse(s@) matches Some(si)
                && si.universal_regions == uni_v && si.blocks == blocks_view(blocks@)),
        decreases n - i + (if done { 0int } else { 1int }),
    {
        let ghost ih = i as int;
        skip_trivia(s, n, &mut i);
        if i >= n {
            proof {
                assert(spec_blocks(s@, ih) == Some(Seq::<SpecBlock>::empty()));
                assert(blocks_view(blocks@) + Seq::<SpecBlock>::empty()
                    =~= blocks_view(blocks@));
            }
            done = true;
        } else {
            proof {
                lemma_skip_idem(s@, ih, false);
            }
            let ghost jh = i as int;
            let kw2 = read_ident(s, n, &mut i)?;
            proof {
                assert(spec_ident(s@, jh) == spec_ident(s@, ih));
            }
            if !kw2.eq(&String::from_str("block")) {
                return Err(fail("expected a block declaration"));
            }
            let b = parse_block(s, n, &mut i)?;
            let ghost pre = blocks@;
            blocks.push(b);
            proof {
                assert(blocks_view(blocks@) =~= blocks_view(pre).push(block_view(b)));
                if spec_blocks(s@, ih) is Some && spec_blocks(s@, i as int) is Some {
                    let rest = spec_blocks(s@, i as int)->Some_0;
                    assert(blocks_view(pre) + (seq![block_view(b)] + rest)
                        =~= blocks_view(blocks@) + rest);
                }
            }
        }
    }
    let inp = Input::new(universal, None, None, blocks);
    proof {
        let si = spec_parse(s@)->Some_0;
        assert(input_view(inp) == si);
    }
    Ok(inp)
}

// ------------------------------------------------------------------
// The lowering conditions, over the denotation.

pub open spec fn sb_block_has_statements(blocks: Seq<SpecBlock>, name: Seq<char>) -> bool {
    exists|i: int|
        0 <= i < blocks.len() && blocks[i].name == name && blocks[i].statements.len() > 0
}

pub open spec fn sb_has_dangling_goto(blocks: Seq<SpecBlock>) -> bool {
    exists|bi: int, g: int|
        0 <= bi < blocks.len() && 0 <= g < blocks[bi].goto.len()
            && !sb_block_has_statements(blocks, blocks[bi].goto[g])
}

pub open spec fn sb_stmts_before(blocks: Seq<SpecBlock>, bi: int) -> int
    decreases bi,
{
    if bi <= 0 {
        0
    } else {
        sb_stmts_before(blocks, bi - 1) + blocks[bi - 1].statements.len()
    }
}

pub open spec fn sb_too_large(blocks: Seq<SpecBlock>) -> bool {
    sb_stmts_before(blocks, blocks.len() as int) > usize::MAX as int / 2
}

proof fn lemma_view_dangling(blocks: Seq<Block>)
    ensures
        sb_has_dangling_goto(blocks_view(blocks)) == has_dangling_goto(blocks),
{
    let bv = blocks_view(blocks);
    assert forall|name: Seq<char>|
        sb_block_has_statements(bv, name) == crate::lower::block_has_statements(blocks, name) by {
        if sb_block_has_statements(bv, name) {
            let i = choose|i: int|
                0 <= i < bv.len() && bv[i].name == name && bv[i].statements.len() > 0;
            assert(bv[i] == block_view(blocks[i]));
            assert(blocks[i].name@ == name && blocks[i].statements@.len() > 0);
        }
        if crate::lower::block_has_statements(blocks, name) {
            let i = choose|i: int|
                0 <= i < blocks.len() && blocks[i].name@ == name
                    && blocks[i].statements@.len() > 0;
            assert(bv[i] == block_view(blocks[i]));
            assert(bv[i].name == name && bv[i].statements.len() > 0);
        }
    }
    if sb_has_dangling_goto(bv) {
        let (bi, g) = choose|bi: int, g: int|
            0 <= bi < bv.len() && 0 <= g < bv[bi].goto.len()
                && !sb_block_has_statements(bv, bv[bi].goto[g]);
        assert(bv[bi] == block_view(blocks[bi]));
        assert(bv[bi].goto[g] == blocks[bi].goto@[g]@);
        assert(has_dangling_goto(blocks));
    }
    if has_dangling_goto(blocks) {
        let (bi, g) = choose|bi: int, g: int|
            0 <= bi < blocks.len() && 0 <= g < blocks[bi].goto@.len()
                && !crate::lower::block_has_statements(blocks, blocks[bi].goto@[g]@);
        assert(bv[bi] == block_view(blocks[bi]));
        assert(bv[bi].goto[g] == blocks[bi].goto@[g]@);
        assert(sb_has_dangling_goto(bv));
    }
}

proof fn lemma_view_total(blocks: Seq<Block>, bi: int)
    requires
        0 <= bi <= blocks.len(),
    ensures
        sb_stmts_before(blocks_view(blocks), bi) == stmts_before(blocks, bi),
    decreases bi,
{
    if bi > 0 {
        lemma_view_total(blocks, bi - 1);
        assert(blocks_view(blocks)[bi - 1] == block_view(blocks[bi - 1]));
    }
}

/// Parse a textual program and lower it to fact tables in one step.
///
/// Succeeds exactly when the text is in the grammar and the denoted program
/// lowers: no successor name dangles and the statements fit the machine's
/// point numbering.
pub fn parse_from_program(text: &str, tables: &mut InternerTables) -> (r: Result<AllFacts, ParseError>)
    requires
        old(tables).wf(),
    ensures
        final(tables).wf(),
        r is Ok <==> (spec_parse(text@) matches Some(si)
            && !sb_has_dangling_goto(si.blocks) && !sb_too_large(si.blocks)),
{
    match parse_input(text) {
        Ok(input) => {
            proof {
                lemma_view_dangling(input.blocks@);
                lemma_view_total(input.blocks@, input.blocks@.len() as int);
                assert((spec_parse(text@)->Some_0).blocks == blocks_view(input.blocks@));
            }
            lower_input(&input, tables)
        },
        Err(e) => Err(e),
    }
}

} // verus!
