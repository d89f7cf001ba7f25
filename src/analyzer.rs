//! Name resolution: turns a parsed program over names into an isomorphic
//! program over symbol-table slots, declaring names as it goes.
use vstd::prelude::*;
use crate::parser::{
    view_expression, view_factor, view_factor_pairs, view_statement, view_statements, view_term,
    view_term_pairs, Expression, ExpressionOperator, Factor, Program, SExpression, SFactor,
    SStatement, STerm, Statement, Term, TermOperator,
};
use crate::symbol_table::{copy_name, distinct_names, Name, SymbolTable};

verus! {

#[derive(Debug)]
pub enum AnalyzedFactor {
    Identifier(usize),
    Literal(Vec<char>),
    SubExpression(Box<AnalyzedExpression>),
}

pub type AnalyzedTerm = (AnalyzedFactor, Vec<(TermOperator, AnalyzedFactor)>);

pub type AnalyzedExpression = (AnalyzedTerm, Vec<(ExpressionOperator, AnalyzedTerm)>);

#[derive(Debug)]
pub enum AnalyzedStatement {
    Declaration(usize),
    InputOperation(usize),
    OutputOperation(AnalyzedExpression),
    Assignment(usize, AnalyzedExpression),
}

pub type AnalyzedProgram = Vec<AnalyzedStatement>;

/// Why analysis stopped, with the name at fault.
#[derive(Debug)]
pub enum SemanticError {
    DuplicateDeclaration(Name),
    UndefinedIdentifier(Name),
}

/// The mathematical content of a `SemanticError`.
pub enum Fault {
    Duplicate(Seq<char>),
    Undefined(Seq<char>),
}

impl SemanticError {
    pub open spec fn fault(&self) -> Fault {
        match self {
            SemanticError::DuplicateDeclaration(n) => Fault::Duplicate(n@),
            SemanticError::UndefinedIdentifier(n) => Fault::Undefined(n@),
        }
    }
}

/// `a` is `f` with every name replaced by its slot in `names`.
pub open spec fn resolved_factor(names: Seq<Seq<char>>, f: SFactor, a: AnalyzedFactor) -> bool
    decreases f,
{
    match f {
        SFactor::Literal(t) => a matches AnalyzedFactor::Literal(u) && u@ == t,
        SFactor::Identifier(n) => a matches AnalyzedFactor::Identifier(i) && i < names.len()
            && names[i as int] == n,
        SFactor::SubExpression(e) => a matches AnalyzedFactor::SubExpression(b)
            && resolved_expression(names, *e, *b),
    }
}

pub open spec fn resolved_factor_pairs(
    names: Seq<Seq<char>>,
    ps: Seq<(TermOperator, SFactor)>,
    qs: Seq<(TermOperator, AnalyzedFactor)>,
) -> bool
    decreases ps,
{
    ps.len() == qs.len() && (ps.len() > 0 ==> {
        &&& ps.last().0 == qs.last().0
        &&& resolved_factor(names, ps.last().1, qs.last().1)
        &&& resolved_factor_pairs(names, ps.drop_last(), qs.drop_last())
    })
}

pub open spec fn resolved_term(names: Seq<Seq<char>>, t: STerm, a: AnalyzedTerm) -> bool
    decreases t,
{
    resolved_factor(names, t.0, a.0) && resolved_factor_pairs(names, t.1, a.1@)
}

pub open spec fn resolved_term_pairs(
    names: Seq<Seq<char>>,
    ps: Seq<(ExpressionOperator, STerm)>,
    qs: Seq<(ExpressionOperator, AnalyzedTerm)>,
) -> bool
    decreases ps,
{
    ps.len() == qs.len() && (ps.len() > 0 ==> {
        &&& ps.last().0 == qs.last().0
        &&& resolved_term(names, ps.last().1, qs.last().1)
        &&& resolved_term_pairs(names, ps.drop_last(), qs.drop_last())
    })
}

/// `a` is `e` with every name replaced by its slot in `names`.
pub open spec fn resolved_expression(
    names: Seq<Seq<char>>,
    e: SExpression,
    a: AnalyzedExpression,
) -> bool
    decreases e,
{
    resolved_term(names, e.0, a.0) && resolved_term_pairs(names, e.1, a.1@)
}

/// The first name, left to right, in `f` that `names` does not hold.
pub open spec fn first_undefined_factor(names: Seq<Seq<char>>, f: SFactor) -> Option<Seq<char>>
    decreases f,
{
    match f {
        SFactor::Literal(_) => None,
        SFactor::Identifier(n) => if names.contains(n) {
            None
        } else {
            Some(n)
        },
        SFactor::SubExpression(e) => first_undefined_expression(names, *e),
    }
}

pub open spec fn first_undefined_factor_pairs(
    names: Seq<Seq<char>>,
    ps: Seq<(TermOperator, SFactor)>,
) -> Option<Seq<char>>
    decreases ps,
{
    if ps.len() == 0 {
        None
    } else {
        match first_undefined_factor_pairs(names, ps.drop_last()) {
            Some(n) => Some(n),
            None => first_undefined_factor(names, ps.last().1),
        }
    }
}

pub open spec fn first_undefined_term(names: Seq<Seq<char>>, t: STerm) -> Option<Seq<char>>
    decreases t,
{
    match first_undefined_factor(names, t.0) {
        Some(n) => Some(n),
        None => first_undefined_factor_pairs(names, t.1),
    }
}

pub open spec fn first_undefined_term_pairs(
    names: Seq<Seq<char>>,
    ps: Seq<(ExpressionOperator, STerm)>,
) -> Option<Seq<char>>
    decreases ps,
{
    if ps.len() == 0 {
        None
    } else {
        match first_undefined_term_pairs(names, ps.drop_last()) {
            Some(n) => Some(n),
            None => first_undefined_term(names, ps.last().1),
        }
    }
}

/// The first name, left to right, in `e` that `names` does not hold.
pub open spec fn first_undefined_expression(names: Seq<Seq<char>>, e: SExpression) -> Option<
    Seq<char>,
>
    decreases e,
{
    match first_undefined_term(names, e.0) {
        Some(n) => Some(n),
        None => first_undefined_term_pairs(names, e.1),
    }
}

fn undefined(name: &Name) -> (r: SemanticError)
    ensures
        r.fault() == Fault::Undefined(name@),
{
    SemanticError::UndefinedIdentifier(copy_name(name))
}

fn analyze_factor(table: &SymbolTable, f: &Factor) -> (r: Result<AnalyzedFactor, SemanticError>)
    requires
        table.wf(),
    ensures
        match r {
            Ok(a) => first_undefined_factor(table.names(), view_factor(*f)) is None
                && resolved_factor(table.names(), view_factor(*f), a),
            Err(e) => first_undefined_factor(table.names(), view_factor(*f)) matches Some(n)
                && e.fault() == Fault::Undefined(n),
        },
    decreases f,
{
    match f {
        Factor::Literal(t) => Ok(AnalyzedFactor::Literal(copy_name(t))),
        Factor::Identifier(n) => match table.index_of_symbol(n) {
            Ok(i) => Ok(AnalyzedFactor::Identifier(i)),
            Err(_) => Err(undefined(n)),
        },
        Factor::SubExpression(e) => match analyze_expression(table, e) {
            Ok(b) => Ok(AnalyzedFactor::SubExpression(Box::new(b))),
            Err(x) => Err(x),
        },
    }
}

fn analyze_term(table: &SymbolTable, t: &Term) -> (r: Result<AnalyzedTerm, SemanticError>)
    requires
        table.wf(),
    ensures
        match r {
            Ok(a) => first_undefined_term(table.names(), view_term(*t)) is None && resolved_term(
                table.names(),
                view_term(*t),
                a,
            ),
            Err(e) => first_undefined_term(table.names(), view_term(*t)) matches Some(n)
                && e.fault() == Fault::Undefined(n),
        },
    decreases t,
{
    let first = match analyze_factor(table, &t.0) {
        Ok(a) => a,
        Err(e) => { return Err(e); },
    };
    let mut rest: Vec<(TermOperator, AnalyzedFactor)> = Vec::new();
    let mut i: usize = 0;
    assert(t.1@.subrange(0, 0) =~= Seq::<(TermOperator, Factor)>::empty());
    while i < t.1.len()
        invariant
            table.wf(),
            i <= t.1@.len(),
            first_undefined_factor(table.names(), view_factor(t.0)) is None,
            resolved_factor(table.names(), view_factor(t.0), first),
            first_undefined_factor_pairs(
                table.names(),
                view_factor_pairs(t.1@.subrange(0, i as int)),
            ) is None,
            resolved_factor_pairs(
                table.names(),
                view_factor_pairs(t.1@.subrange(0, i as int)),
                rest@,
            ),
        decreases t.1@.len() - i,
    {
        let pair = &t.1[i];
        proof {
            assert(decreases_to!(t.1 => t.1[i as int]));
        }
        let ghost done = view_factor_pairs(t.1@.subrange(0, i as int));
        let ghost next = done.push((pair.0, view_factor(pair.1)));
        let ghost prev = rest@;
        proof {
            assert(t.1@.subrange(0, i + 1).drop_last() =~= t.1@.subrange(0, i as int));
            assert(view_factor_pairs(t.1@.subrange(0, i + 1)) == next);
            assert(next.drop_last() =~= done);
        }
        match analyze_factor(table, &pair.1) {
            Ok(a) => {
                rest.push((pair.0, a));
                proof {
                    assert(rest@.drop_last() =~= prev);
                }
            },
            Err(e) => {
                proof {
                    lemma_first_undefined_factor_pairs_prefix(table.names(), t.1@, i as int + 1);
                }
                return Err(e);
            },
        }
        i = i + 1;
    }
    assert(t.1@.subrange(0, i as int) =~= t.1@);
    Ok((first, rest))
}

/// Once a prefix of the pairs holds an undefined name, the whole does too.
proof fn lemma_first_undefined_factor_pairs_prefix(
    names: Seq<Seq<char>>,
    ps: Seq<(TermOperator, Factor)>,
    k: int,
)
    requires
        0 <= k <= ps.len(),
        first_undefined_factor_pairs(names, view_factor_pairs(ps.subrange(0, k))) is Some,
    ensures
        first_undefined_factor_pairs(names, view_factor_pairs(ps)) == first_undefined_factor_pairs(
            names,
            view_factor_pairs(ps.subrange(0, k)),
        ),
    decreases ps.len() - k,
{
    if k < ps.len() {
        let v = view_factor_pairs(ps.subrange(0, k));
        assert(ps.subrange(0, k + 1).drop_last() =~= ps.subrange(0, k));
        let w = view_factor_pairs(ps.subrange(0, k + 1));
        assert(w.drop_last() =~= v);
        lemma_first_undefined_factor_pairs_prefix(names, ps, k + 1);
    } else {
        assert(ps.subrange(0, k) =~= ps);
    }
}

proof fn lemma_first_undefined_term_pairs_prefix(
    names: Seq<Seq<char>>,
    ps: Seq<(ExpressionOperator, Term)>,
    k: int,
)
    requires
        0 <= k <= ps.len(),
        first_undefined_term_pairs(names, view_term_pairs(ps.subrange(0, k))) is Some,
    ensures
        first_undefined_term_pairs(names, view_term_pairs(ps)) == first_undefined_term_pairs(
            names,
            view_term_pairs(ps.subrange(0, k)),
        ),
    decreases ps.len() - k,
{
    if k < ps.len() {
        let v = view_term_pairs(ps.subrange(0, k));
        assert(ps.subrange(0, k + 1).drop_last() =~= ps.subrange(0, k));
        let w = view_term_pairs(ps.subrange(0, k + 1));
        assert(w.drop_last() =~= v);
        lemma_first_undefined_term_pairs_prefix(names, ps, k + 1);
    } else {
        assert(ps.subrange(0, k) =~= ps);
    }
}

fn analyze_expression(table: &SymbolTable, x: &Expression) -> (r: Result<
    AnalyzedExpression,
    SemanticError,
>)
    requires
        table.wf(),
    ensures
        match r {
            Ok(a) => first_undefined_expression(table.names(), view_expression(*x)) is None
                && resolved_expression(table.names(), view_expression(*x), a),
            Err(e) => first_undefined_expression(table.names(), view_expression(*x)) matches Some(
                n,
            ) && e.fault() == Fault::Undefined(n),
        },
    decreases x,
{
    let first = match analyze_term(table, &x.0) {
        Ok(a) => a,
        Err(e) => { return Err(e); },
    };
    let mut rest: Vec<(ExpressionOperator, AnalyzedTerm)> = Vec::new();
    let mut i: usize = 0;
    assert(x.1@.subrange(0, 0) =~= Seq::<(ExpressionOperator, Term)>::empty());
    while i < x.1.len()
        invariant
            table.wf(),
            i <= x.1@.len(),
            first_undefined_term(table.names(), view_term(x.0)) is None,
            resolved_term(table.names(), view_term(x.0), first),
            first_undefined_term_pairs(
                table.names(),
                view_term_pairs(x.1@.subrange(0, i as int)),
            ) is None,
            resolved_term_pairs(table.names(), view_term_pairs(x.1@.subrange(0, i as int)), rest@),
        decreases x.1@.len() - i,
    {
        let pair = &x.1[i];
        proof {
            assert(decreases_to!(x.1 => x.1[i as int]));
        }
        let ghost done = view_term_pairs(x.1@.subrange(0, i as int));
        let ghost next = done.push((pair.0, view_term(pair.1)));
        let ghost prev = rest@;
        proof {
            assert(x.1@.subrange(0, i + 1).drop_last() =~= x.1@.subrange(0, i as int));
            assert(view_term_pairs(x.1@.subrange(0, i + 1)) == next);
            assert(next.drop_last() =~= done);
        }
        match analyze_term(table, &pair.1) {
            Ok(a) => {
                rest.push((pair.0, a));
                proof {
                    assert(rest@.drop_last() =~= prev);
                }
            },
            Err(e) => {
                proof {
                    lemma_first_undefined_term_pairs_prefix(table.names(), x.1@, i as int + 1);
                }
                return Err(e);
            },
        }
        i = i + 1;
    }
    assert(x.1@.subrange(0, i as int) =~= x.1@);
    Ok((first, rest))
}

/// What a statement does to the declared names.
pub open spec fn names_after(names: Seq<Seq<char>>, st: SStatement) -> Seq<Seq<char>> {
    match st {
        SStatement::Declaration(n) => names.push(n),
        _ => names,
    }
}

/// The fault, if any, of one statement analysed against `names`.
pub open spec fn statement_fault(names: Seq<Seq<char>>, st: SStatement) -> Option<Fault> {
    match st {
        SStatement::Declaration(n) => if names.contains(n) {
            Some(Fault::Duplicate(n))
        } else {
            None
        },
        SStatement::Input(n) => if names.contains(n) {
            None
        } else {
            Some(Fault::Undefined(n))
        },
        SStatement::Output(e) => match first_undefined_expression(names, e) {
            Some(m) => Some(Fault::Undefined(m)),
            None => None,
        },
        SStatement::Assignment(n, e) => if !names.contains(n) {
            Some(Fault::Undefined(n))
        } else {
            match first_undefined_expression(names, e) {
                Some(m) => Some(Fault::Undefined(m)),
                None => None,
            }
        },
    }
}

/// The declared names after analysing `sts` in order, starting from `names`.
pub open spec fn program_names(names: Seq<Seq<char>>, sts: Seq<SStatement>) -> Seq<Seq<char>>
    decreases sts.len(),
{
    if sts.len() == 0 {
        names
    } else {
        names_after(program_names(names, sts.drop_last()), sts.last())
    }
}

/// The first fault met when analysing `sts` in order, starting from `names`.
pub open spec fn program_fault(names: Seq<Seq<char>>, sts: Seq<SStatement>) -> Option<Fault>
    decreases sts.len(),
{
    if sts.len() == 0 {
        None
    } else {
        match program_fault(names, sts.drop_last()) {
            Some(f) => Some(f),
            None => statement_fault(program_names(names, sts.drop_last()), sts.last()),
        }
    }
}

/// `a` is `st` with every name replaced by its slot in `names`.
pub open spec fn resolved_statement(
    names: Seq<Seq<char>>,
    st: SStatement,
    a: AnalyzedStatement,
) -> bool {
    match st {
        SStatement::Declaration(n) => a matches AnalyzedStatement::Declaration(i) && i
            < names.len() && names[i as int] == n,
        SStatement::Input(n) => a matches AnalyzedStatement::InputOperation(i) && i < names.len()
            && names[i as int] == n,
        SStatement::Output(e) => a matches AnalyzedStatement::OutputOperation(b)
            && resolved_expression(names, e, b),
        SStatement::Assignment(n, e) => a matches AnalyzedStatement::Assignment(i, b) && i
            < names.len() && names[i as int] == n && resolved_expression(names, e, b),
    }
}

/// `k` slots holding 0.0.
pub open spec fn zeros(k: int) -> Seq<u64> {
    Seq::new(k as nat, |_i: int| 0u64)
}

fn analyze_statement(table: &mut SymbolTable, st: &Statement) -> (r: Result<
    AnalyzedStatement,
    SemanticError,
>)
    requires
        old(table).wf(),
    ensures
        final(table).wf(),
        match r {
            Ok(a) => {
                &&& statement_fault(old(table).names(), view_statement(*st)) is None
                &&& final(table).names() == names_after(old(table).names(), view_statement(*st))
                &&& final(table).values() == old(table).values() + zeros(
                    final(table).names().len() - old(table).names().len(),
                )
                &&& resolved_statement(final(table).names(), view_statement(*st), a)
            },
            Err(e) => {
                &&& statement_fault(old(table).names(), view_statement(*st)) == Some(e.fault())
                &&& final(table).names() == old(table).names()
                &&& final(table).values() == old(table).values()
            },
        },
{
    proof {
        assert(old(table).values() + zeros(0) =~= old(table).values());
    }
    match st {
        Statement::Declaration(n) => match table.insert_symbol(n) {
            Ok(i) => {
                proof {
                    assert(old(table).values().push(0u64) =~= old(table).values() + zeros(1));
                    assert(table.names()[i as int] == n@);
                }
                Ok(AnalyzedStatement::Declaration(i))
            },
            Err(_) => Err(SemanticError::DuplicateDeclaration(copy_name(n))),
        },
        Statement::Input(n) => match table.index_of_symbol(n) {
            Ok(i) => Ok(AnalyzedStatement::InputOperation(i)),
            Err(_) => Err(undefined(n)),
        },
        Statement::Output(x) => match analyze_expression(table, x) {
            Ok(b) => Ok(AnalyzedStatement::OutputOperation(b)),
            Err(e) => Err(e),
        },
        Statement::Assignment(n, x) => {
            let i = match table.index_of_symbol(n) {
                Ok(i) => i,
                Err(_) => { return Err(undefined(n)); },
            };
            match analyze_expression(table, x) {
                Ok(b) => Ok(AnalyzedStatement::Assignment(i, b)),
                Err(e) => Err(e),
            }
        },
    }
}

/// Once a prefix of a program meets a fault, the whole program meets it.
pub proof fn lemma_program_fault_prefix(names: Seq<Seq<char>>, sts: Seq<SStatement>, k: int)
    requires
        0 <= k <= sts.len(),
        program_fault(names, sts.take(k)) is Some,
    ensures
        program_fault(names, sts) == program_fault(names, sts.take(k)),
    decreases sts.len() - k,
{
    if k < sts.len() {
        assert(sts.take(k + 1).drop_last() =~= sts.take(k));
        lemma_program_fault_prefix(names, sts, k + 1);
    } else {
        assert(sts.take(k) =~= sts);
    }
}

/// Resolves every name of `prog`, in order, against `table`, declaring names
/// as declarations are met. Stops at the first fault and returns it; the
/// slots declared before the faulty statement stay.
pub fn analyze_program(table: &mut SymbolTable, prog: &Program) -> (r: Result<
    AnalyzedProgram,
    SemanticError,
>)
    requires
        old(table).wf(),
    ensures
        final(table).wf(),
        final(table).names().len() >= old(table).names().len(),
        final(table).names().subrange(0, old(table).names().len() as int) == old(table).names(),
        final(table).values() == old(table).values() + zeros(
            final(table).names().len() - old(table).names().len(),
        ),
        match r {
            Ok(a) => {
                &&& program_fault(old(table).names(), view_statements(prog@)) is None
                &&& final(table).names() == program_names(
                    old(table).names(),
                    view_statements(prog@),
                )
                &&& a@.len() == prog@.len()
                &&& forall|i: int|
                    0 <= i < prog@.len() ==> resolved_statement(
                        #[trigger] program_names(
                            old(table).names(),
                            view_statements(prog@).take(i + 1),
                        ),
                        view_statements(prog@)[i],
                        a@[i],
                    )
                &&& forall|i: int|
                    0 <= i < prog@.len() ==> resolved_statement(
                        final(table).names(),
                        #[trigger] view_statements(prog@)[i],
                        a@[i],
                    )
            },
            Err(e) => {
                &&& program_fault(old(table).names(), view_statements(prog@)) == Some(e.fault())
                &&& exists|k: int|
                    0 <= k < prog@.len() && program_fault(
                        old(table).names(),
                        view_statements(prog@).take(k),
                    ) is None && statement_fault(
                        #[trigger] program_names(
                            old(table).names(),
                            view_statements(prog@).take(k),
                        ),
                        view_statements(prog@)[k],
                    ) == Some(e.fault()) && final(table).names() == program_names(
                        old(table).names(),
                        view_statements(prog@).take(k),
                    )
            },
        },
{
    let ghost names0 = table.names();
    let ghost values0 = table.values();
    let ghost vs = view_statements(prog@);
    let mut out: AnalyzedProgram = Vec::new();
    let mut i: usize = 0;
    proof {
        assert(vs.take(0) =~= Seq::<SStatement>::empty());
        assert(table.names().subrange(0, names0.len() as int) =~= names0);
        assert(values0 + zeros(0) =~= values0);
    }
    while i < prog.len()
        invariant
            table.wf(),
            i <= prog@.len(),
            vs == view_statements(prog@),
            vs.len() == prog@.len(),
            names0 == old(table).names(),
            values0 == old(table).values(),
            table.names().len() >= names0.len(),
            table.names().subrange(0, names0.len() as int) == names0,
            table.values() == values0 + zeros(table.names().len() - names0.len()),
            program_fault(names0, vs.take(i as int)) is None,
            table.names() == program_names(names0, vs.take(i as int)),
            out@.len() == i,
            forall|k: int|
                0 <= k < i ==> resolved_statement(
                    #[trigger] program_names(names0, vs.take(k + 1)),
                    vs[k],
                    out@[k],
                ),
        decreases prog@.len() - i,
    {
        let ghost before = table.names();
        proof {
            assert(vs.take(i + 1).drop_last() =~= vs.take(i as int));
            assert(vs.take(i + 1).last() == vs[i as int]);
            assert(vs[i as int] == view_statement(prog@[i as int]));
        }
        match analyze_statement(table, &prog[i]) {
            Ok(a) => {
                out.push(a);
                proof {
                    assert(table.names().subrange(0, names0.len() as int) =~= names0) by {
                        assert(before.subrange(0, names0.len() as int) == names0);
                    }
                    assert(table.values() =~= values0 + zeros(table.names().len() - names0.len()));
                }
            },
            Err(e) => {
                proof {
                    lemma_program_fault_prefix(names0, vs, i + 1);
                    assert(program_names(names0, vs.take(i as int)) == table.names());
                }
                return Err(e);
            },
        }
        i = i + 1;
    }
    assert(vs.take(i as int) =~= vs);
    assert forall|k: int| 0 <= k < prog@.len() implies resolved_statement(
        table.names(),
        #[trigger] vs[k],
        out@[k],
    ) by {
        lemma_program_names_grow(names0, vs, k + 1, prog@.len() as int);
        lemma_resolved_statement_extends(
            program_names(names0, vs.take(k + 1)),
            table.names(),
            vs[k],
            out@[k],
        );
    }
    Ok(out)
}

/// Declaring distinct names, in order, on an empty table always succeeds, and
/// each name gets the slot equal to its position among the declarations.
pub proof fn lemma_declarations_take_slots_in_order(sts: Seq<SStatement>, names: Seq<Seq<char>>)
    requires
        sts.len() == names.len(),
        forall|i: int|
            0 <= i < sts.len() ==> (#[trigger] sts[i] == SStatement::Declaration(names[i])),
        distinct_names(names),
    ensures
        program_fault(Seq::empty(), sts) is None,
        program_names(Seq::empty(), sts) == names,
    decreases sts.len(),
{
    if sts.len() == 0 {
        assert(names =~= Seq::<Seq<char>>::empty());
    } else {
        let k = sts.len() - 1;
        assert forall|i: int| 0 <= i < k implies #[trigger] sts.drop_last()[i] == SStatement::Declaration(names.drop_last()[i]) by {
            assert(sts.drop_last()[i] == sts[i]);
        }
        lemma_declarations_take_slots_in_order(sts.drop_last(), names.drop_last());
        assert(sts[k] == SStatement::Declaration(names[k]));
        assert(!names.drop_last().contains(names[k])) by {
            if names.drop_last().contains(names[k]) {
                let j = choose|j: int| 0 <= j < k && names.drop_last()[j] == names[k];
                assert(names[j] == names[k]);
            }
        }
        assert(names.drop_last().push(names[k]) =~= names);
    }
}

/// The names declared by a prefix of a program stay, in their slots, after
/// any longer prefix.
pub proof fn lemma_program_names_grow(names0: Seq<Seq<char>>, sts: Seq<SStatement>, a: int, b: int)
    requires
        0 <= a <= b <= sts.len(),
    ensures
        program_names(names0, sts.take(a)).len() <= program_names(names0, sts.take(b)).len(),
        program_names(names0, sts.take(b)).subrange(
            0,
            program_names(names0, sts.take(a)).len() as int,
        ) == program_names(names0, sts.take(a)),
    decreases b - a,
{
    if a == b {
        assert(program_names(names0, sts.take(b)).subrange(
            0,
            program_names(names0, sts.take(a)).len() as int,
        ) =~= program_names(names0, sts.take(a)));
    } else {
        lemma_program_names_grow(names0, sts, a, b - 1);
        assert(sts.take(b).drop_last() =~= sts.take(b - 1));
        let pa = program_names(names0, sts.take(a));
        let pm = program_names(names0, sts.take(b - 1));
        let pb = program_names(names0, sts.take(b));
        assert(pb.subrange(0, pa.len() as int) =~= pm.subrange(0, pa.len() as int));
    }
}

/// A program has at most one first faulty statement: the first statement
/// that faults after a fault-free prefix.
pub proof fn lemma_first_fault_unique(names0: Seq<Seq<char>>, sts: Seq<SStatement>, k1: int, k2: int)
    requires
        0 <= k1 < sts.len(),
        0 <= k2 < sts.len(),
        program_fault(names0, sts.take(k1)) is None,
        statement_fault(program_names(names0, sts.take(k1)), sts[k1]) is Some,
        program_fault(names0, sts.take(k2)) is None,
        statement_fault(program_names(names0, sts.take(k2)), sts[k2]) is Some,
    ensures
        k1 == k2,
{
    if k1 != k2 {
        let (a, b) = if k1 < k2 {
            (k1, k2)
        } else {
            (k2, k1)
        };
        let pre = sts.take(b);
        assert(pre.take(a) =~= sts.take(a));
        assert(pre.take(a + 1).drop_last() =~= sts.take(a));
        assert(pre.take(a + 1).last() == sts[a]);
        lemma_program_fault_prefix(names0, pre, a + 1);
    }
}

/// How many declarations `sts` holds.
pub open spec fn declaration_count(sts: Seq<SStatement>) -> nat
    decreases sts.len(),
{
    if sts.len() == 0 {
        0
    } else {
        declaration_count(sts.drop_last()) + if sts.last() is Declaration {
            1nat
        } else {
            0nat
        }
    }
}

/// Each declaration adds one slot, and nothing else does.
pub proof fn lemma_program_names_len(names0: Seq<Seq<char>>, sts: Seq<SStatement>)
    ensures
        program_names(names0, sts).len() == names0.len() + declaration_count(sts),
    decreases sts.len(),
{
    if sts.len() > 0 {
        lemma_program_names_len(names0, sts.drop_last());
    }
}

/// A name declared a second time fails the analysis with a duplicate
/// declaration of that name, at the second declaration.
pub proof fn lemma_second_declaration_fails(
    names0: Seq<Seq<char>>,
    sts: Seq<SStatement>,
    i: int,
    j: int,
    n: Seq<char>,
)
    requires
        0 <= i < j < sts.len(),
        sts[i] == SStatement::Declaration(n),
        sts[j] == SStatement::Declaration(n),
        program_fault(names0, sts.take(j)) is None,
    ensures
        program_fault(names0, sts) == Some(Fault::Duplicate(n)),
        program_names(names0, sts.take(j)).contains(n),
        program_names(names0, sts.take(j))[names0.len() + declaration_count(sts.take(i)) as int]
            == n,
{
    lemma_program_names_len(names0, sts.take(i));
    assert(sts.take(i + 1).drop_last() =~= sts.take(i));
    assert(sts.take(i + 1).last() == sts[i]);
    let pi = program_names(names0, sts.take(i + 1));
    assert(pi.last() == n);
    lemma_program_names_grow(names0, sts, i + 1, j);
    let pj = program_names(names0, sts.take(j));
    assert(pj[pi.len() - 1] == pi[pi.len() - 1]);
    assert(pj.contains(n));
    assert(sts.take(j + 1).drop_last() =~= sts.take(j));
    assert(sts.take(j + 1).last() == sts[j]);
    lemma_program_fault_prefix(names0, sts, j + 1);
}

/// Whether the name `n` occurs in `f`.
pub open spec fn factor_mentions(f: SFactor, n: Seq<char>) -> bool
    decreases f,
{
    match f {
        SFactor::Literal(_) => false,
        SFactor::Identifier(m) => m == n,
        SFactor::SubExpression(e) => expression_mentions(*e, n),
    }
}

pub open spec fn factor_pairs_mention(ps: Seq<(TermOperator, SFactor)>, n: Seq<char>) -> bool
    decreases ps,
{
    ps.len() > 0 && (factor_pairs_mention(ps.drop_last(), n) || factor_mentions(ps.last().1, n))
}

pub open spec fn term_mentions(t: STerm, n: Seq<char>) -> bool
    decreases t,
{
    factor_mentions(t.0, n) || factor_pairs_mention(t.1, n)
}

pub open spec fn term_pairs_mention(ps: Seq<(ExpressionOperator, STerm)>, n: Seq<char>) -> bool
    decreases ps,
{
    ps.len() > 0 && (term_pairs_mention(ps.drop_last(), n) || term_mentions(ps.last().1, n))
}

/// Whether the name `n` occurs in `e`.
pub open spec fn expression_mentions(e: SExpression, n: Seq<char>) -> bool
    decreases e,
{
    term_mentions(e.0, n) || term_pairs_mention(e.1, n)
}

/// Whether statement `st` refers to the name `n` (as a target or in its expression).
pub open spec fn statement_refers_to(st: SStatement, n: Seq<char>) -> bool {
    match st {
        SStatement::Declaration(_) => false,
        SStatement::Input(m) => m == n,
        SStatement::Output(e) => expression_mentions(e, n),
        SStatement::Assignment(m, e) => m == n || expression_mentions(e, n),
    }
}

proof fn lemma_factor_undefined(names: Seq<Seq<char>>, f: SFactor, n: Seq<char>)
    requires
        factor_mentions(f, n),
        !names.contains(n),
    ensures
        first_undefined_factor(names, f) is Some,
    decreases f,
{
    if let SFactor::SubExpression(e) = f {
        lemma_expression_undefined(names, *e, n);
    }
}

proof fn lemma_factor_pairs_undefined(
    names: Seq<Seq<char>>,
    ps: Seq<(TermOperator, SFactor)>,
    n: Seq<char>,
)
    requires
        factor_pairs_mention(ps, n),
        !names.contains(n),
    ensures
        first_undefined_factor_pairs(names, ps) is Some,
    decreases ps,
{
    if factor_pairs_mention(ps.drop_last(), n) {
        lemma_factor_pairs_undefined(names, ps.drop_last(), n);
    } else {
        lemma_factor_undefined(names, ps.last().1, n);
    }
}

proof fn lemma_term_undefined(names: Seq<Seq<char>>, t: STerm, n: Seq<char>)
    requires
        term_mentions(t, n),
        !names.contains(n),
    ensures
        first_undefined_term(names, t) is Some,
    decreases t,
{
    if factor_mentions(t.0, n) {
        lemma_factor_undefined(names, t.0, n);
    } else {
        lemma_factor_pairs_undefined(names, t.1, n);
    }
}

proof fn lemma_term_pairs_undefined(
    names: Seq<Seq<char>>,
    ps: Seq<(ExpressionOperator, STerm)>,
    n: Seq<char>,
)
    requires
        term_pairs_mention(ps, n),
        !names.contains(n),
    ensures
        first_undefined_term_pairs(names, ps) is Some,
    decreases ps,
{
    if term_pairs_mention(ps.drop_last(), n) {
        lemma_term_pairs_undefined(names, ps.drop_last(), n);
    } else {
        lemma_term_undefined(names, ps.last().1, n);
    }
}

proof fn lemma_expression_undefined(names: Seq<Seq<char>>, e: SExpression, n: Seq<char>)
    requires
        expression_mentions(e, n),
        !names.contains(n),
    ensures
        first_undefined_expression(names, e) is Some,
    decreases e,
{
    if term_mentions(e.0, n) {
        lemma_term_undefined(names, e.0, n);
    } else {
        lemma_term_pairs_undefined(names, e.1, n);
    }
}

/// A statement that refers, as input or assignment target or anywhere in its
/// expression, to a name not declared before it fails the analysis with an
/// undefined identifier (the first such name it meets).
pub proof fn lemma_undeclared_reference_fails(
    names0: Seq<Seq<char>>,
    sts: Seq<SStatement>,
    j: int,
    n: Seq<char>,
)
    requires
        0 <= j < sts.len(),
        program_fault(names0, sts.take(j)) is None,
        statement_refers_to(sts[j], n),
        !program_names(names0, sts.take(j)).contains(n),
    ensures
        program_fault(names0, sts) matches Some(Fault::Undefined(_)),
{
    let names = program_names(names0, sts.take(j));
    match sts[j] {
        SStatement::Output(e) => {
            lemma_expression_undefined(names, e, n);
        },
        SStatement::Assignment(m, e) => {
            if m != n {
                lemma_expression_undefined(names, e, n);
            }
        },
        _ => {},
    }
    assert(sts.take(j + 1).drop_last() =~= sts.take(j));
    assert(sts.take(j + 1).last() == sts[j]);
    lemma_program_fault_prefix(names0, sts, j + 1);
}

/// `more` extends `names`: it holds every slot of `names` at the same index.
pub open spec fn extends(more: Seq<Seq<char>>, names: Seq<Seq<char>>) -> bool {
    names.len() <= more.len() && more.subrange(0, names.len() as int) == names
}

proof fn lemma_extends_index(more: Seq<Seq<char>>, names: Seq<Seq<char>>, i: int)
    requires
        extends(more, names),
        0 <= i < names.len(),
    ensures
        more[i] == names[i],
{
    assert(more.subrange(0, names.len() as int)[i] == more[i]);
}

proof fn lemma_resolved_factor_extends(
    names: Seq<Seq<char>>,
    more: Seq<Seq<char>>,
    f: SFactor,
    a: AnalyzedFactor,
)
    requires
        extends(more, names),
        resolved_factor(names, f, a),
    ensures
        resolved_factor(more, f, a),
    decreases f,
{
    match f {
        SFactor::Identifier(_) => {
            if let AnalyzedFactor::Identifier(i) = a {
                lemma_extends_index(more, names, i as int);
            }
        },
        SFactor::SubExpression(e) => {
            if let AnalyzedFactor::SubExpression(b) = a {
                lemma_resolved_expression_extends(names, more, *e, *b);
            }
        },
        _ => {},
    }
}

proof fn lemma_resolved_factor_pairs_extends(
    names: Seq<Seq<char>>,
    more: Seq<Seq<char>>,
    ps: Seq<(TermOperator, SFactor)>,
    qs: Seq<(TermOperator, AnalyzedFactor)>,
)
    requires
        extends(more, names),
        resolved_factor_pairs(names, ps, qs),
    ensures
        resolved_factor_pairs(more, ps, qs),
    decreases ps,
{
    if ps.len() > 0 {
        lemma_resolved_factor_extends(names, more, ps.last().1, qs.last().1);
        lemma_resolved_factor_pairs_extends(names, more, ps.drop_last(), qs.drop_last());
    }
}

proof fn lemma_resolved_term_extends(
    names: Seq<Seq<char>>,
    more: Seq<Seq<char>>,
    t: STerm,
    a: AnalyzedTerm,
)
    requires
        extends(more, names),
        resolved_term(names, t, a),
    ensures
        resolved_term(more, t, a),
    decreases t,
{
    lemma_resolved_factor_extends(names, more, t.0, a.0);
    lemma_resolved_factor_pairs_extends(names, more, t.1, a.1@);
}

proof fn lemma_resolved_term_pairs_extends(
    names: Seq<Seq<char>>,
    more: Seq<Seq<char>>,
    ps: Seq<(ExpressionOperator, STerm)>,
    qs: Seq<(ExpressionOperator, AnalyzedTerm)>,
)
    requires
        extends(more, names),
        resolved_term_pairs(names, ps, qs),
    ensures
        resolved_term_pairs(more, ps, qs),
    decreases ps,
{
    if ps.len() > 0 {
        lemma_resolved_term_extends(names, more, ps.last().1, qs.last().1);
        lemma_resolved_term_pairs_extends(names, more, ps.drop_last(), qs.drop_last());
    }
}

proof fn lemma_resolved_expression_extends(
    names: Seq<Seq<char>>,
    more: Seq<Seq<char>>,
    e: SExpression,
    a: AnalyzedExpression,
)
    requires
        extends(more, names),
        resolved_expression(names, e, a),
    ensures
        resolved_expression(more, e, a),
    decreases e,
{
    lemma_resolved_term_extends(names, more, e.0, a.0);
    lemma_resolved_term_pairs_extends(names, more, e.1, a.1@);
}

/// A statement resolved against some slots stays resolved, with the same
/// slots, once more names are declared after them.
pub proof fn lemma_resolved_statement_extends(
    names: Seq<Seq<char>>,
    more: Seq<Seq<char>>,
    st: SStatement,
    a: AnalyzedStatement,
)
    requires
        extends(more, names),
        resolved_statement(names, st, a),
    ensures
        resolved_statement(more, st, a),
{
    match (st, a) {
        (SStatement::Declaration(_), AnalyzedStatement::Declaration(i)) => {
            lemma_extends_index(more, names, i as int);
        },
        (SStatement::Input(_), AnalyzedStatement::InputOperation(i)) => {
            lemma_extends_index(more, names, i as int);
        },
        (SStatement::Output(e), AnalyzedStatement::OutputOperation(b)) => {
            lemma_resolved_expression_extends(names, more, e, b);
        },
        (SStatement::Assignment(_, e), AnalyzedStatement::Assignment(i, b)) => {
            lemma_extends_index(more, names, i as int);
            lemma_resolved_expression_extends(names, more, e, b);
        },
        _ => {},
    }
}

} // verus!
