//! Lowering of resolved statements to actions over a small stack machine.
//!
//! An expression becomes postfix code: its first operand, then, for each
//! following (operator, operand) pair, the operand's code and the operator.
//! Run on a stack of doubles, such code folds every chain left to right, with
//! terms bound tighter than sums, exactly as the tree reads.
use vstd::prelude::*;
use crate::analyzer::{
    AnalyzedExpression, AnalyzedFactor, AnalyzedProgram, AnalyzedStatement, AnalyzedTerm,
};
use crate::parser::{ExpressionOperator, TermOperator};
use crate::symbol_table::copy_name;

verus! {

#[derive(Debug, PartialEq, Eq, Clone, Copy, Structural)]
pub enum BinOp {
    Add,
    Subtract,
    Multiply,
    Divide,
}

/// One instruction of stack code.
#[derive(Debug)]
pub enum Instr {
    /// Push the value held in a slot.
    Load(usize),
    /// Push the double that a literal's text denotes.
    Push(Vec<char>),
    /// Pop the right operand, then the left one, and push their combination.
    Apply(BinOp),
}

/// The mathematical content of an `Instr`.
pub enum Op {
    Load(usize),
    Push(Seq<char>),
    Apply(BinOp),
}

impl Instr {
    pub open spec fn op(&self) -> Op {
        match self {
            Instr::Load(i) => Op::Load(*i),
            Instr::Push(t) => Op::Push(t@),
            Instr::Apply(b) => Op::Apply(*b),
        }
    }
}

pub open spec fn ops(code: Seq<Instr>) -> Seq<Op> {
    code.map_values(|i: Instr| i.op())
}

pub open spec fn term_bin_op(op: TermOperator) -> BinOp {
    match op {
        TermOperator::Multiply => BinOp::Multiply,
        TermOperator::Divide => BinOp::Divide,
    }
}

pub open spec fn expr_bin_op(op: ExpressionOperator) -> BinOp {
    match op {
        ExpressionOperator::Add => BinOp::Add,
        ExpressionOperator::Subtract => BinOp::Subtract,
    }
}

/// The postfix code of a factor.
pub open spec fn code_factor(f: AnalyzedFactor) -> Seq<Op>
    decreases f,
{
    match f {
        AnalyzedFactor::Identifier(i) => seq![Op::Load(i)],
        AnalyzedFactor::Literal(t) => seq![Op::Push(t@)],
        AnalyzedFactor::SubExpression(e) => code_expression(*e),
    }
}

pub open spec fn code_factor_pairs(ps: Seq<(TermOperator, AnalyzedFactor)>) -> Seq<Op>
    decreases ps,
{
    if ps.len() == 0 {
        Seq::empty()
    } else {
        code_factor_pairs(ps.drop_last()) + code_factor(ps.last().1) + seq![
            Op::Apply(term_bin_op(ps.last().0)),
        ]
    }
}

/// The postfix code of a term.
pub open spec fn code_term(t: AnalyzedTerm) -> Seq<Op>
    decreases t,
{
    code_factor(t.0) + code_factor_pairs(t.1@)
}

pub open spec fn code_term_pairs(ps: Seq<(ExpressionOperator, AnalyzedTerm)>) -> Seq<Op>
    decreases ps,
{
    if ps.len() == 0 {
        Seq::empty()
    } else {
        code_term_pairs(ps.drop_last()) + code_term(ps.last().1) + seq![
            Op::Apply(expr_bin_op(ps.last().0)),
        ]
    }
}

/// The postfix code of an expression.
pub open spec fn code_expression(e: AnalyzedExpression) -> Seq<Op>
    decreases e,
{
    code_term(e.0) + code_term_pairs(e.1@)
}

fn term_op(op: TermOperator) -> (r: BinOp)
    ensures
        r == term_bin_op(op),
{
    match op {
        TermOperator::Multiply => BinOp::Multiply,
        TermOperator::Divide => BinOp::Divide,
    }
}

fn expr_op(op: ExpressionOperator) -> (r: BinOp)
    ensures
        r == expr_bin_op(op),
{
    match op {
        ExpressionOperator::Add => BinOp::Add,
        ExpressionOperator::Subtract => BinOp::Subtract,
    }
}

fn emit(code: &mut Vec<Instr>, i: Instr)
    ensures
        ops(final(code)@) == ops(old(code)@) + seq![i.op()],
{
    let ghost before = code@;
    code.push(i);
    proof {
        assert(ops(code@) =~= ops(before) + seq![i.op()]);
    }
}

fn lower_factor(f: &AnalyzedFactor, code: &mut Vec<Instr>)
    ensures
        ops(final(code)@) == ops(old(code)@) + code_factor(*f),
    decreases f,
{
    match f {
        AnalyzedFactor::Identifier(i) => emit(code, Instr::Load(*i)),
        AnalyzedFactor::Literal(t) => emit(code, Instr::Push(copy_name(t))),
        AnalyzedFactor::SubExpression(e) => lower_expression(e, code),
    }
}

fn lower_term(t: &AnalyzedTerm, code: &mut Vec<Instr>)
    ensures
        ops(final(code)@) == ops(old(code)@) + code_term(*t),
    decreases t,
{
    let ghost start = ops(code@);
    lower_factor(&t.0, code);
    let mut i: usize = 0;
    while i < t.1.len()
        invariant
            i <= t.1@.len(),
            ops(code@) == start + code_factor(t.0) + code_factor_pairs(t.1@.subrange(0, i as int)),
        decreases t.1@.len() - i,
    {
        proof {
            assert(decreases_to!(t.1 => t.1[i as int]));
            assert(t.1@.subrange(0, i + 1).drop_last() =~= t.1@.subrange(0, i as int));
        }
        let ghost mid = ops(code@);
        lower_factor(&t.1[i].1, code);
        emit(code, Instr::Apply(term_op(t.1[i].0)));
        proof {
            assert(ops(code@) =~= start + code_factor(t.0) + code_factor_pairs(
                t.1@.subrange(0, i + 1),
            ));
        }
        i = i + 1;
    }
    assert(t.1@.subrange(0, i as int) =~= t.1@);
    assert(ops(code@) =~= start + code_term(*t));
}

fn lower_expression(e: &AnalyzedExpression, code: &mut Vec<Instr>)
    ensures
        ops(final(code)@) == ops(old(code)@) + code_expression(*e),
    decreases e,
{
    let ghost start = ops(code@);
    lower_term(&e.0, code);
    let mut i: usize = 0;
    while i < e.1.len()
        invariant
            i <= e.1@.len(),
            ops(code@) == start + code_term(e.0) + code_term_pairs(e.1@.subrange(0, i as int)),
        decreases e.1@.len() - i,
    {
        proof {
            assert(decreases_to!(e.1 => e.1[i as int]));
            assert(e.1@.subrange(0, i + 1).drop_last() =~= e.1@.subrange(0, i as int));
        }
        lower_term(&e.1[i].1, code);
        emit(code, Instr::Apply(expr_op(e.1[i].0)));
        proof {
            assert(ops(code@) =~= start + code_term(e.0) + code_term_pairs(
                e.1@.subrange(0, i + 1),
            ));
        }
        i = i + 1;
    }
    assert(e.1@.subrange(0, i as int) =~= e.1@);
    assert(ops(code@) =~= start + code_expression(*e));
}

/// The stack code of an expression.
pub fn compile_expression(e: &AnalyzedExpression) -> (r: Vec<Instr>)
    ensures
        ops(r@) == code_expression(*e),
{
    let mut code: Vec<Instr> = Vec::new();
    assert(ops(code@) =~= Seq::<Op>::empty());
    lower_expression(e, &mut code);
    assert(Seq::<Op>::empty() + code_expression(*e) =~= code_expression(*e));
    code
}

/// What the host does for one resolved statement.
#[derive(Debug)]
pub enum Action {
    /// Nothing happens.
    Nothing,
    /// Read one line, read it as a double, and store it in the slot.
    Read(usize),
    /// Run the code and print the value it leaves.
    Print(Vec<Instr>),
    /// Run the code and store the value it leaves in the slot.
    Store(usize, Vec<Instr>),
}

/// `a` is what the host does for `st`.
pub open spec fn plans(st: AnalyzedStatement, a: Action) -> bool {
    match st {
        AnalyzedStatement::Declaration(_) => a is Nothing,
        AnalyzedStatement::InputOperation(i) => a == Action::Read(i),
        AnalyzedStatement::OutputOperation(e) => a matches Action::Print(c) && ops(c@)
            == code_expression(e),
        AnalyzedStatement::Assignment(i, e) => a matches Action::Store(j, c) && j == i && ops(c@)
            == code_expression(e),
    }
}

/// The action for one resolved statement. A declaration has no effect at run
/// time: its slot was made, holding 0.0, when it was resolved.
pub fn plan_statement(st: &AnalyzedStatement) -> (r: Action)
    ensures
        plans(*st, r),
{
    match st {
        AnalyzedStatement::Declaration(_) => Action::Nothing,
        AnalyzedStatement::InputOperation(i) => Action::Read(*i),
        AnalyzedStatement::OutputOperation(e) => Action::Print(compile_expression(e)),
        AnalyzedStatement::Assignment(i, e) => Action::Store(*i, compile_expression(e)),
    }
}

/// The actions for a resolved program, statement by statement.
pub fn plan_program(p: &AnalyzedProgram) -> (r: Vec<Action>)
    ensures
        r@.len() == p@.len(),
        forall|i: int| 0 <= i < p@.len() ==> plans(#[trigger] p@[i], r@[i]),
{
    let mut r: Vec<Action> = Vec::new();
    let mut i: usize = 0;
    while i < p.len()
        invariant
            i <= p@.len(),
            r@.len() == i,
            forall|k: int| 0 <= k < i ==> plans(#[trigger] p@[k], r@[k]),
        decreases p@.len() - i,
    {
        r.push(plan_statement(&p[i]));
        i = i + 1;
    }
    r
}

/// The value an input line stores: the bit pattern of the double it reads
/// as, or that of 0.0 when it reads as none.
pub fn input_value(parsed: Option<u64>) -> (r: u64)
    ensures
        r == match parsed {
            Some(bits) => bits,
            None => 0u64,
        },
{
    match parsed {
        Some(bits) => bits,
        None => 0,
    }
}

/// One instruction run on `stack`, with slot values `env`, literal reading
/// `lit` and operator meaning `apply`; `None` if it would pop an empty stack.
pub open spec fn step<V>(
    op: Op,
    stack: Seq<V>,
    env: spec_fn(usize) -> V,
    lit: spec_fn(Seq<char>) -> V,
    apply: spec_fn(BinOp, V, V) -> V,
) -> Option<Seq<V>> {
    match op {
        Op::Load(i) => Some(stack.push(env(i))),
        Op::Push(t) => Some(stack.push(lit(t))),
        Op::Apply(b) => if stack.len() >= 2 {
            Some(
                stack.drop_last().drop_last().push(
                    apply(b, stack[stack.len() - 2], stack[stack.len() - 1]),
                ),
            )
        } else {
            None
        },
    }
}

/// `code` run from the front on `stack`.
pub open spec fn run<V>(
    code: Seq<Op>,
    stack: Seq<V>,
    env: spec_fn(usize) -> V,
    lit: spec_fn(Seq<char>) -> V,
    apply: spec_fn(BinOp, V, V) -> V,
) -> Option<Seq<V>>
    decreases code.len(),
{
    if code.len() == 0 {
        Some(stack)
    } else {
        match step(code[0], stack, env, lit, apply) {
            None => None,
            Some(next) => run(code.drop_first(), next, env, lit, apply),
        }
    }
}

/// The value of a factor, chains folded left to right.
pub open spec fn eval_factor<V>(
    f: AnalyzedFactor,
    env: spec_fn(usize) -> V,
    lit: spec_fn(Seq<char>) -> V,
    apply: spec_fn(BinOp, V, V) -> V,
) -> V
    decreases f,
{
    match f {
        AnalyzedFactor::Identifier(i) => env(i),
        AnalyzedFactor::Literal(t) => lit(t@),
        AnalyzedFactor::SubExpression(e) => eval_expression(*e, env, lit, apply),
    }
}

pub open spec fn fold_factor_pairs<V>(
    acc: V,
    ps: Seq<(TermOperator, AnalyzedFactor)>,
    env: spec_fn(usize) -> V,
    lit: spec_fn(Seq<char>) -> V,
    apply: spec_fn(BinOp, V, V) -> V,
) -> V
    decreases ps,
{
    if ps.len() == 0 {
        acc
    } else {
        apply(
            term_bin_op(ps.last().0),
            fold_factor_pairs(acc, ps.drop_last(), env, lit, apply),
            eval_factor(ps.last().1, env, lit, apply),
        )
    }
}

pub open spec fn eval_term<V>(
    t: AnalyzedTerm,
    env: spec_fn(usize) -> V,
    lit: spec_fn(Seq<char>) -> V,
    apply: spec_fn(BinOp, V, V) -> V,
) -> V
    decreases t,
{
    fold_factor_pairs(eval_factor(t.0, env, lit, apply), t.1@, env, lit, apply)
}

pub open spec fn fold_term_pairs<V>(
    acc: V,
    ps: Seq<(ExpressionOperator, AnalyzedTerm)>,
    env: spec_fn(usize) -> V,
    lit: spec_fn(Seq<char>) -> V,
    apply: spec_fn(BinOp, V, V) -> V,
) -> V
    decreases ps,
{
    if ps.len() == 0 {
        acc
    } else {
        apply(
            expr_bin_op(ps.last().0),
            fold_term_pairs(acc, ps.drop_last(), env, lit, apply),
            eval_term(ps.last().1, env, lit, apply),
        )
    }
}

/// The value of an expression: the first term, then each (operator, term)
/// pair folded in from the left; terms fold their factors the same way.
pub open spec fn eval_expression<V>(
    e: AnalyzedExpression,
    env: spec_fn(usize) -> V,
    lit: spec_fn(Seq<char>) -> V,
    apply: spec_fn(BinOp, V, V) -> V,
) -> V
    decreases e,
{
    fold_term_pairs(eval_term(e.0, env, lit, apply), e.1@, env, lit, apply)
}

/// Running two pieces of code in turn is running their concatenation.
pub proof fn lemma_run_concat<V>(
    a: Seq<Op>,
    b: Seq<Op>,
    stack: Seq<V>,
    env: spec_fn(usize) -> V,
    lit: spec_fn(Seq<char>) -> V,
    apply: spec_fn(BinOp, V, V) -> V,
)
    ensures
        run(a + b, stack, env, lit, apply) == match run(a, stack, env, lit, apply) {
            None => None,
            Some(mid) => run(b, mid, env, lit, apply),
        },
    decreases a.len(),
{
    if a.len() == 0 {
        assert(a + b =~= b);
    } else {
        assert((a + b)[0] == a[0]);
        assert((a + b).drop_first() =~= a.drop_first() + b);
        if let Some(next) = step(a[0], stack, env, lit, apply) {
            lemma_run_concat(a.drop_first(), b, next, env, lit, apply);
        }
    }
}

proof fn lemma_run_apply<V>(
    b: BinOp,
    stack: Seq<V>,
    x: V,
    y: V,
    env: spec_fn(usize) -> V,
    lit: spec_fn(Seq<char>) -> V,
    apply: spec_fn(BinOp, V, V) -> V,
)
    ensures
        run(seq![Op::Apply(b)], stack.push(x).push(y), env, lit, apply) == Some(
            stack.push(apply(b, x, y)),
        ),
{
    let st = stack.push(x).push(y);
    let c = seq![Op::Apply(b)];
    assert(st.drop_last().drop_last() =~= stack);
    assert(st[st.len() - 2] == x && st[st.len() - 1] == y);
    assert(c[0] == Op::Apply(b));
    assert(step(c[0], st, env, lit, apply) == Some(stack.push(apply(b, x, y))));
    assert(c.drop_first() =~= Seq::<Op>::empty());
    assert(run(c.drop_first(), stack.push(apply(b, x, y)), env, lit, apply) == Some(
        stack.push(apply(b, x, y)),
    ));
}

proof fn lemma_run_factor<V>(
    f: AnalyzedFactor,
    stack: Seq<V>,
    env: spec_fn(usize) -> V,
    lit: spec_fn(Seq<char>) -> V,
    apply: spec_fn(BinOp, V, V) -> V,
)
    ensures
        run(code_factor(f), stack, env, lit, apply) == Some(
            stack.push(eval_factor(f, env, lit, apply)),
        ),
    decreases f,
{
    match f {
        AnalyzedFactor::SubExpression(e) => {
            lemma_run_expression(*e, stack, env, lit, apply);
        },
        _ => {
            let c = code_factor(f);
            assert(c.drop_first() =~= Seq::<Op>::empty());
            let next = stack.push(eval_factor(f, env, lit, apply));
            assert(step(c[0], stack, env, lit, apply) == Some(next));
            assert(run(c.drop_first(), next, env, lit, apply) == Some(next));
        },
    }
}

proof fn lemma_run_factor_pairs<V>(
    acc: V,
    ps: Seq<(TermOperator, AnalyzedFactor)>,
    stack: Seq<V>,
    env: spec_fn(usize) -> V,
    lit: spec_fn(Seq<char>) -> V,
    apply: spec_fn(BinOp, V, V) -> V,
)
    ensures
        run(code_factor_pairs(ps), stack.push(acc), env, lit, apply) == Some(
            stack.push(fold_factor_pairs(acc, ps, env, lit, apply)),
        ),
    decreases ps,
{
    if ps.len() > 0 {
        let head = code_factor_pairs(ps.drop_last());
        let mid = code_factor(ps.last().1);
        let tail = seq![Op::Apply(term_bin_op(ps.last().0))];
        let v1 = fold_factor_pairs(acc, ps.drop_last(), env, lit, apply);
        let v2 = eval_factor(ps.last().1, env, lit, apply);
        lemma_run_factor_pairs(acc, ps.drop_last(), stack, env, lit, apply);
        lemma_run_factor(ps.last().1, stack.push(v1), env, lit, apply);
        lemma_run_apply(term_bin_op(ps.last().0), stack, v1, v2, env, lit, apply);
        lemma_run_concat(head, mid, stack.push(acc), env, lit, apply);
        lemma_run_concat(head + mid, tail, stack.push(acc), env, lit, apply);
    }
}

proof fn lemma_run_term<V>(
    t: AnalyzedTerm,
    stack: Seq<V>,
    env: spec_fn(usize) -> V,
    lit: spec_fn(Seq<char>) -> V,
    apply: spec_fn(BinOp, V, V) -> V,
)
    ensures
        run(code_term(t), stack, env, lit, apply) == Some(
            stack.push(eval_term(t, env, lit, apply)),
        ),
    decreases t,
{
    lemma_run_factor(t.0, stack, env, lit, apply);
    lemma_run_factor_pairs(eval_factor(t.0, env, lit, apply), t.1@, stack, env, lit, apply);
    lemma_run_concat(code_factor(t.0), code_factor_pairs(t.1@), stack, env, lit, apply);
}

proof fn lemma_run_term_pairs<V>(
    acc: V,
    ps: Seq<(ExpressionOperator, AnalyzedTerm)>,
    stack: Seq<V>,
    env: spec_fn(usize) -> V,
    lit: spec_fn(Seq<char>) -> V,
    apply: spec_fn(BinOp, V, V) -> V,
)
    ensures
        run(code_term_pairs(ps), stack.push(acc), env, lit, apply) == Some(
            stack.push(fold_term_pairs(acc, ps, env, lit, apply)),
        ),
    decreases ps,
{
    if ps.len() > 0 {
        let head = code_term_pairs(ps.drop_last());
        let mid = code_term(ps.last().1);
        let tail = seq![Op::Apply(expr_bin_op(ps.last().0))];
        let v1 = fold_term_pairs(acc, ps.drop_last(), env, lit, apply);
        let v2 = eval_term(ps.last().1, env, lit, apply);
        lemma_run_term_pairs(acc, ps.drop_last(), stack, env, lit, apply);
        lemma_run_term(ps.last().1, stack.push(v1), env, lit, apply);
        lemma_run_apply(expr_bin_op(ps.last().0), stack, v1, v2, env, lit, apply);
        lemma_run_concat(head, mid, stack.push(acc), env, lit, apply);
        lemma_run_concat(head + mid, tail, stack.push(acc), env, lit, apply);
    }
}

/// Running an expression's code never pops an empty stack and pushes exactly
/// one value: the expression evaluated by folding every chain from the left,
/// terms before sums. This holds for any slot values, any reading of the
/// literals and any meaning of the four operators, IEEE-754 doubles included.
pub proof fn lemma_run_expression<V>(
    e: AnalyzedExpression,
    stack: Seq<V>,
    env: spec_fn(usize) -> V,
    lit: spec_fn(Seq<char>) -> V,
    apply: spec_fn(BinOp, V, V) -> V,
)
    ensures
        run(code_expression(e), stack, env, lit, apply) == Some(
            stack.push(eval_expression(e, env, lit, apply)),
        ),
    decreases e,
{
    lemma_run_term(e.0, stack, env, lit, apply);
    lemma_run_term_pairs(eval_term(e.0, env, lit, apply), e.1@, stack, env, lit, apply);
    lemma_run_concat(code_term(e.0), code_term_pairs(e.1@), stack, env, lit, apply);
}

/// Planning a resolved statement again gives the same action: an output or
/// assignment runs the same code, so on unchanged slot values it yields the
/// same value, and a declaration does nothing however often it is run.
pub proof fn lemma_replanning_is_stable<V>(
    st: AnalyzedStatement,
    a1: Action,
    a2: Action,
    stack: Seq<V>,
    env: spec_fn(usize) -> V,
    lit: spec_fn(Seq<char>) -> V,
    apply: spec_fn(BinOp, V, V) -> V,
)
    requires
        plans(st, a1),
        plans(st, a2),
    ensures
        st is Declaration ==> a1 is Nothing && a2 is Nothing,
        a1 matches Action::Print(c1) ==> a2 matches Action::Print(c2) && run(
            ops(c1@),
            stack,
            env,
            lit,
            apply,
        ) == run(ops(c2@), stack, env, lit, apply),
        a1 matches Action::Store(i1, c1) ==> a2 matches Action::Store(i2, c2) && i1 == i2 && run(
            ops(c1@),
            stack,
            env,
            lit,
            apply,
        ) == run(ops(c2@), stack, env, lit, apply),
{
}

} // verus!
