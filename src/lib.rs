//! A small calculator language: declare scalar variables, read them, assign
//! arithmetic expressions to them and print results.
//!
//! The pipeline is parse -> analyze -> execute. Parsing, name resolution and
//! the lowering of expressions to stack code are verified here; values are
//! carried as IEEE-754 bit patterns (`u64`) so that the host performs the
//! floating-point arithmetic itself.
use vstd::prelude::*;

pub mod analyzer;
pub mod machine;
pub mod parser;
pub mod symbol_table;

use crate::analyzer::{
    analyze_program, program_fault, program_names, resolved_statement, AnalyzedProgram,
    AnalyzedStatement, SemanticError,
};
use crate::parser::{
    has_text, parse_program, program_at, strip, view_statements, Program, SStatement,
};
use crate::symbol_table::SymbolTable;

verus! {

/// Why a source text could not be run.
#[derive(Debug)]
pub enum RunError {
    /// Text from this point on matched no statement.
    Parse(Vec<char>),
    /// Name resolution failed.
    Semantic(SemanticError),
}

/// The statements the grammar reads from the start of `text`.
pub open spec fn statements_of(text: Seq<char>) -> Seq<SStatement> {
    program_at(text, 0).0
}

/// The text that reading statements from the start of `text` leaves.
pub open spec fn leftover(text: Seq<char>) -> Seq<char> {
    text.subrange(program_at(text, 0).1, text.len() as int)
}

/// Whether `text` reads in full as statements, up to trailing whitespace.
pub open spec fn reads_in_full(text: Seq<char>) -> bool {
    strip(leftover(text)).len() == 0
}

/// Analysing `sts` from `names0` succeeds, ends with `names1`, and gives `a`,
/// each statement resolved against the slots `names1` holds.
pub open spec fn analyzes_to(
    names0: Seq<Seq<char>>,
    sts: Seq<SStatement>,
    names1: Seq<Seq<char>>,
    a: Seq<AnalyzedStatement>,
) -> bool {
    &&& program_fault(names0, sts) is None
    &&& names1 == program_names(names0, sts)
    &&& a.len() == sts.len()
    &&& forall|i: int| 0 <= i < sts.len() ==> resolved_statement(names1, #[trigger] sts[i], a[i])
}

/// Resolves `prog` against `table`, leaving `table` as it was on failure.
fn resolve(table: &mut SymbolTable, prog: &Program) -> (r: Result<AnalyzedProgram, RunError>)
    requires
        old(table).wf(),
    ensures
        final(table).wf(),
        match r {
            Ok(a) => {
                &&& analyzes_to(
                    old(table).names(),
                    view_statements(prog@),
                    final(table).names(),
                    a@,
                )
                &&& final(table).values() == old(table).values() + analyzer::zeros(
                    final(table).names().len() - old(table).names().len(),
                )
            },
            Err(RunError::Parse(_)) => false,
            Err(RunError::Semantic(e)) => {
                &&& program_fault(old(table).names(), view_statements(prog@)) == Some(e.fault())
                &&& final(table).names() == old(table).names()
                &&& final(table).values() == old(table).values()
            },
        },
{
    let len = table.len();
    match analyze_program(table, prog) {
        Ok(a) => Ok(a),
        Err(e) => {
            table.truncate(len);
            proof {
                assert(table.names() =~= old(table).names());
                assert(table.values() =~= old(table).values());
            }
            Err(RunError::Semantic(e))
        },
    }
}

/// Parses `text` and resolves it against `table`. The parse must consume
/// `text` entirely: any text left after the last statement, whitespace
/// included, is a parse failure. On any failure `table` is left as it was.
pub fn run_interactive(table: &mut SymbolTable, text: &str) -> (r: Result<
    AnalyzedProgram,
    RunError,
>)
    requires
        old(table).wf(),
    ensures
        final(table).wf(),
        (r matches Err(RunError::Parse(_))) <==> leftover(text@).len() > 0,
        match r {
            Ok(a) => {
                &&& analyzes_to(old(table).names(), statements_of(text@), final(table).names(), a@)
                &&& final(table).values() == old(table).values() + analyzer::zeros(
                    final(table).names().len() - old(table).names().len(),
                )
            },
            Err(RunError::Parse(rest)) => {
                &&& rest@ == leftover(text@)
                &&& final(table).names() == old(table).names()
                &&& final(table).values() == old(table).values()
            },
            Err(RunError::Semantic(e)) => {
                &&& program_fault(old(table).names(), statements_of(text@)) == Some(e.fault())
                &&& final(table).names() == old(table).names()
                &&& final(table).values() == old(table).values()
            },
        },
{
    let (rest, prog) = parse_program(text);
    if rest.len() > 0 {
        return Err(RunError::Parse(rest));
    }
    resolve(table, &prog)
}

/// Parses `source` and resolves it against a fresh table, giving the table
/// and the resolved program, ready to be executed. Text left after the last
/// statement that holds more than whitespace is a parse failure.
pub fn run_source(source: &str) -> (r: Result<(SymbolTable, AnalyzedProgram), RunError>)
    ensures
        (r matches Err(RunError::Parse(_))) <==> !reads_in_full(source@),
        match r {
            Ok((t, a)) => {
                &&& t.wf()
                &&& analyzes_to(Seq::empty(), statements_of(source@), t.names(), a@)
                &&& t.values() == analyzer::zeros(t.names().len() as int)
            },
            Err(RunError::Parse(rest)) => rest@ == leftover(source@),
            Err(RunError::Semantic(e)) => program_fault(Seq::empty(), statements_of(source@))
                == Some(e.fault()),
        },
{
    let (rest, prog) = parse_program(source);
    if has_text(&rest) {
        return Err(RunError::Parse(rest));
    }
    let mut table = SymbolTable::new();
    match resolve(&mut table, &prog) {
        Ok(a) => {
            proof {
                assert(Seq::<u64>::empty() + analyzer::zeros(table.names().len() as int)
                    =~= analyzer::zeros(table.names().len() as int));
            }
            Ok((table, a))
        },
        Err(e) => Err(e),
    }
}

} // verus!
