//! A fact-based region/loan analysis: a textual program description is
//! lowered to flat, point-indexed fact tables, and a fixpoint engine derives
//! liveness, region-subset and loan-conflict relations from them under four
//! interchangeable evaluation strategies.

pub mod facts;
pub mod ir;
pub mod intern;
pub mod lower;
pub mod parser;
pub mod sem;
pub mod engine;
pub mod insensitive;
pub mod output;
pub mod laws;
